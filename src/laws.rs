//! What holds of the store across calls.
use vstd::prelude::*;
use crate::ext_key::ext_lookup;
use crate::items::{ItemSchema, readable_keys, readable};
use crate::keys::{be_bytes, lemma_be_round_trip, lemma_be_injective};
use crate::store::{
    same_at,
    TaskStore, UpdateV, snapshot_applied, apply_updates, touches, stored_items, stored_pairs, next_id_of,
    next_after, last_registration, reverse_after, forward_of, META_KEY_NEXT_FREE_TASK_ID, META_KEY_OPERATIONS,
};
use crate::table::{Pair, pairs_map};

verus! {

/// After a snapshot, the items of a task that it touched are the task's
/// earlier items with its updates replayed in order, the last write to an
/// item key winning, when the schema can read every item back; the items of
/// every other task are as they were.
pub proof fn lemma_round_trip(
    old: TaskStore,
    new: TaskStore,
    ops: Seq<Seq<u8>>,
    rs: Seq<(Seq<u8>, u32)>,
    us: Seq<UpdateV>,
    schema: &ItemSchema,
    t: u32,
)
    requires
        snapshot_applied(old, new, ops, rs, us, schema),
        schema.unreadable_kinds@.len() == 0,
    ensures
        touches(us, t) ==> pairs_map(stored_pairs(new.data_map(), t)) == apply_updates(stored_items(old.data_map(), t), us, t),
        !touches(us, t) ==> stored_pairs(new.data_map(), t) == stored_pairs(old.data_map(), t),
{
    let m = apply_updates(stored_items(old.data_map(), t), us, t);
    assert forall|k: Seq<u8>| readable(schema, k) by {}
    assert(m.restrict(readable_keys(schema)) =~= m);
    if !touches(us, t) {
        assert forall|x: u32| #[trigger] touches(us, x) implies be_bytes(t) != be_bytes(x) by {
            lemma_be_injective(t, x);
        }
        assert(crate::store::same_at(new.data_map(), old.data_map(), be_bytes(t)));
    }
}

/// The next free id after the registrations is above each registered id.
pub proof fn lemma_next_after_above(n: u32, rs: Seq<(Seq<u8>, u32)>, i: int)
    requires
        0 <= i < rs.len(),
    ensures
        next_after(n, rs) > rs[i].1,
    decreases rs.len(),
{
    if i < rs.len() - 1 {
        lemma_next_after_above(n, rs.drop_last(), i);
        assert(rs.drop_last()[i] == rs[i]);
    }
}

/// The next free id after the registrations is at most the largest id, when
/// no registration uses it.
pub proof fn lemma_next_after_bounded(n: u32, rs: Seq<(Seq<u8>, u32)>)
    requires
        forall|i: int| 0 <= i < rs.len() ==> (#[trigger] rs[i]).1 < u32::MAX,
    ensures
        n <= next_after(n, rs) <= u32::MAX,
    decreases rs.len(),
{
    if rs.len() > 0 {
        let p = rs.drop_last();
        assert forall|i: int| 0 <= i < p.len() implies (#[trigger] p[i]).1 < u32::MAX by {
            assert(p[i] == rs[i]);
        }
        lemma_next_after_bounded(n, p);
        assert(rs[rs.len() - 1].1 < u32::MAX);
    }
}

/// After a snapshot registers a task id, the next free id is above it, and
/// the next free id never goes down.
pub proof fn lemma_id_monotonic(
    old: TaskStore,
    new: TaskStore,
    ops: Seq<Seq<u8>>,
    rs: Seq<(Seq<u8>, u32)>,
    us: Seq<UpdateV>,
    schema: &ItemSchema,
)
    requires
        snapshot_applied(old, new, ops, rs, us, schema),
    ensures
        forall|i: int| 0 <= i < rs.len() ==> next_id_of(new.meta_map()) > (#[trigger] rs[i]).1,
        next_id_of(new.meta_map()) >= next_id_of(old.meta_map()),
        next_id_of(new.meta_map()) == next_after(next_id_of(old.meta_map()), rs),
{
    let n = next_id_of(old.meta_map());
    lemma_next_after_bounded(n, rs);
    let next = next_after(n, rs) as u32;
    lemma_be_round_trip(next);
    assert(be_bytes(META_KEY_NEXT_FREE_TASK_ID) != be_bytes(META_KEY_OPERATIONS)) by {
        lemma_be_injective(META_KEY_NEXT_FREE_TASK_ID, META_KEY_OPERATIONS);
    }
    assert(new.meta_map()[be_bytes(META_KEY_NEXT_FREE_TASK_ID)] == be_bytes(next));
    assert(next_id_of(new.meta_map()) == next);
    assert forall|i: int| 0 <= i < rs.len() implies next_id_of(new.meta_map()) > (#[trigger] rs[i]).1 by {
        lemma_next_after_above(n, rs, i);
    }
}

/// The only registration of `ty` in `rs` gives it the id it names.
pub proof fn lemma_last_registration(rs: Seq<(Seq<u8>, u32)>, i: int)
    requires
        0 <= i < rs.len(),
        forall|j: int| 0 <= j < rs.len() && j != i ==> (#[trigger] rs[j]).0 != rs[i].0,
    ensures
        last_registration(rs, rs[i].0) == Some(rs[i].1),
    decreases rs.len(),
{
    if i < rs.len() - 1 {
        let p = rs.drop_last();
        assert forall|j: int| 0 <= j < p.len() && j != i implies (#[trigger] p[j]).0 != p[i].0 by {
            assert(p[j] == rs[j]);
        }
        lemma_last_registration(p, i);
        assert(rs[rs.len() - 1].0 != rs[i].0);
    }
}

/// The only registration that uses `rs[i].1` is entered in the reverse table.
pub proof fn lemma_reverse_after(m: Map<Seq<u8>, Seq<u8>>, rs: Seq<(Seq<u8>, u32)>, i: int)
    requires
        0 <= i < rs.len(),
        forall|j: int| 0 <= j < rs.len() && j != i ==> (#[trigger] rs[j]).1 != rs[i].1,
    ensures
        reverse_after(m, rs).contains_key(be_bytes(rs[i].1)),
        reverse_after(m, rs)[be_bytes(rs[i].1)] == rs[i].0,
    decreases rs.len(),
{
    if i < rs.len() - 1 {
        let p = rs.drop_last();
        assert forall|j: int| 0 <= j < p.len() && j != i implies (#[trigger] p[j]).1 != p[i].1 by {
            assert(p[j] == rs[j]);
        }
        lemma_reverse_after(m, p, i);
        lemma_be_injective(rs[rs.len() - 1].1, rs[i].1);
    }
}

/// After a snapshot registers a task type with a task id, and no other
/// registration of the snapshot names the same type or the same id, the
/// forward lookup of the type gives the id and the reverse lookup of the id
/// gives the type, whatever the length of the type's bytes.
pub proof fn lemma_forward_reverse(
    old: TaskStore,
    new: TaskStore,
    ops: Seq<Seq<u8>>,
    rs: Seq<(Seq<u8>, u32)>,
    us: Seq<UpdateV>,
    schema: &ItemSchema,
    i: int,
)
    requires
        snapshot_applied(old, new, ops, rs, us, schema),
        0 <= i < rs.len(),
        forall|j: int| 0 <= j < rs.len() && j != i ==> (#[trigger] rs[j]).0 != rs[i].0 && rs[j].1 != rs[i].1,
    ensures
        forward_of(new.forward_map(), rs[i].0) == Some(rs[i].1),
        new.reverse_map().contains_key(be_bytes(rs[i].1)),
        new.reverse_map()[be_bytes(rs[i].1)] == rs[i].0,
{
    lemma_last_registration(rs, i);
    lemma_reverse_after(old.reverse_map(), rs, i);
    lemma_be_round_trip(rs[i].1);
    assert(ext_lookup(new.forward_map(), rs[i].0) == Some(be_bytes(rs[i].1)));
}

/// An empty store records no items for any task, no pending operations, and
/// `1` as the next free id.
pub proof fn lemma_empty_by_default(s: TaskStore, t: u32)
    requires
        s.meta_map().is_empty(),
        s.data_map().is_empty(),
    ensures
        stored_pairs(s.data_map(), t) == Seq::<Pair>::empty(),
        !s.meta_map().contains_key(be_bytes(META_KEY_OPERATIONS)),
        next_id_of(s.meta_map()) == 1,
{
}

/// After a snapshot, no item that the schema cannot read back is stored for
/// a task that the snapshot touched.
pub proof fn lemma_unreadable_dropped(
    old: TaskStore,
    new: TaskStore,
    ops: Seq<Seq<u8>>,
    rs: Seq<(Seq<u8>, u32)>,
    us: Seq<UpdateV>,
    schema: &ItemSchema,
    t: u32,
    key: Seq<u8>,
)
    requires
        snapshot_applied(old, new, ops, rs, us, schema),
        touches(us, t),
        !readable(schema, key),
    ensures
        !stored_items(new.data_map(), t).contains_key(key),
{
}

/// Some update of `us` for task `t` names item key `k`.
pub open spec fn updates_key(us: Seq<UpdateV>, t: u32, k: Seq<u8>) -> bool {
    exists|i: int| 0 <= i < us.len() && (#[trigger] us[i]).0 == t && us[i].1 == k
}

/// An item key that no update names keeps its earlier value; one that an
/// update names ends with a value that depends on the updates alone.
pub proof fn lemma_apply_updates_at(
    m1: Map<Seq<u8>, Seq<u8>>,
    m2: Map<Seq<u8>, Seq<u8>>,
    us: Seq<UpdateV>,
    t: u32,
    k: Seq<u8>,
)
    ensures
        !updates_key(us, t, k) ==> same_at(apply_updates(m1, us, t), m1, k),
        updates_key(us, t, k) ==> same_at(apply_updates(m1, us, t), apply_updates(m2, us, t), k),
    decreases us.len(),
{
    if us.len() > 0 {
        let p = us.drop_last();
        lemma_apply_updates_at(m1, m2, p, t, k);
        if !updates_key(us, t, k) {
            assert forall|i: int| 0 <= i < p.len() implies !((#[trigger] p[i]).0 == t && p[i].1 == k) by {
                assert(p[i] == us[i]);
            }
        }
        if updates_key(us, t, k) && !(us.last().0 == t && us.last().1 == k) {
            let i = choose|i: int| 0 <= i < us.len() && (#[trigger] us[i]).0 == t && us[i].1 == k;
            assert(i < us.len() - 1);
            assert(p[i] == us[i]);
        }
    }
}

/// Some registration of `rs` uses the id whose key is `k`.
pub open spec fn registers_key(rs: Seq<(Seq<u8>, u32)>, k: Seq<u8>) -> bool {
    exists|i: int| 0 <= i < rs.len() && be_bytes((#[trigger] rs[i]).1) == k
}

/// A key of no registered id keeps its earlier entry; the entry of a
/// registered id's key depends on the registrations alone.
pub proof fn lemma_reverse_after_at(
    m1: Map<Seq<u8>, Seq<u8>>,
    m2: Map<Seq<u8>, Seq<u8>>,
    rs: Seq<(Seq<u8>, u32)>,
    k: Seq<u8>,
)
    ensures
        !registers_key(rs, k) ==> same_at(reverse_after(m1, rs), m1, k),
        registers_key(rs, k) ==> same_at(reverse_after(m1, rs), reverse_after(m2, rs), k),
    decreases rs.len(),
{
    if rs.len() > 0 {
        let p = rs.drop_last();
        lemma_reverse_after_at(m1, m2, p, k);
        if !registers_key(rs, k) {
            assert forall|i: int| 0 <= i < p.len() implies be_bytes((#[trigger] p[i]).1) != k by {
                assert(p[i] == rs[i]);
            }
        }
        if registers_key(rs, k) && be_bytes(rs.last().1) != k {
            let i = choose|i: int| 0 <= i < rs.len() && be_bytes((#[trigger] rs[i]).1) == k;
            assert(i < rs.len() - 1);
            assert(p[i] == rs[i]);
        }
    }
}

/// Starting above every registered id, the next free id stays where it is.
pub proof fn lemma_next_after_fixed(n: u32, rs: Seq<(Seq<u8>, u32)>)
    requires
        forall|i: int| 0 <= i < rs.len() ==> (#[trigger] rs[i]).1 < n,
    ensures
        next_after(n, rs) == n,
    decreases rs.len(),
{
    if rs.len() > 0 {
        let p = rs.drop_last();
        assert forall|i: int| 0 <= i < p.len() implies (#[trigger] p[i]).1 < n by {
            assert(p[i] == rs[i]);
        }
        lemma_next_after_fixed(n, p);
        assert(rs[rs.len() - 1].1 < n);
    }
}

/// Writing the same snapshot a second time changes nothing that a lookup
/// reads: the journal, the next free id, the forward and reverse entries of
/// every key, and the items of every task.
pub proof fn lemma_snapshot_idempotent(
    s0: TaskStore,
    s1: TaskStore,
    s2: TaskStore,
    ops: Seq<Seq<u8>>,
    rs: Seq<(Seq<u8>, u32)>,
    us: Seq<UpdateV>,
    schema: &ItemSchema,
)
    requires
        snapshot_applied(s0, s1, ops, rs, us, schema),
        snapshot_applied(s1, s2, ops, rs, us, schema),
    ensures
        s2.meta_map() == s1.meta_map(),
        forall|ty: Seq<u8>| ext_lookup(s2.forward_map(), ty) == ext_lookup(s1.forward_map(), ty),
        s2.reverse_map() == s1.reverse_map(),
        forall|t: u32| stored_items(s2.data_map(), t) == stored_items(s1.data_map(), t),
{
    lemma_id_monotonic(s0, s1, ops, rs, us, schema);
    let n1 = next_id_of(s1.meta_map());
    assert forall|i: int| 0 <= i < rs.len() implies (#[trigger] rs[i]).1 < n1 by {}
    lemma_next_after_fixed(n1, rs);
    lemma_be_round_trip(n1);
    assert(s2.meta_map() =~= s1.meta_map()) by {
        lemma_be_injective(META_KEY_NEXT_FREE_TASK_ID, META_KEY_OPERATIONS);
    }
    let r0 = s0.reverse_map();
    let r1 = s1.reverse_map();
    assert(r1 == reverse_after(r0, rs));
    assert forall|k: Seq<u8>| #[trigger] s2.reverse_map().contains_key(k) == r1.contains_key(k) && (r1.contains_key(k)
        ==> s2.reverse_map()[k] == r1[k]) by {
        lemma_reverse_after_at(r1, r0, rs, k);
        assert(same_at(reverse_after(r1, rs), r1, k));
    }
    assert(s2.reverse_map() =~= s1.reverse_map());
    assert forall|t: u32| stored_items(s2.data_map(), t) == stored_items(s1.data_map(), t) by {
        if touches(us, t) {
            let m0 = stored_items(s0.data_map(), t);
            let m1 = stored_items(s1.data_map(), t);
            let rk = readable_keys(schema);
            let a1 = apply_updates(m1, us, t);
            assert(m1 == apply_updates(m0, us, t).restrict(rk));
            assert forall|k: Seq<u8>| #[trigger] a1.restrict(rk).contains_key(k) == m1.contains_key(k) && (m1.contains_key(k)
                ==> a1.restrict(rk)[k] == m1[k]) by {
                lemma_apply_updates_at(m1, m0, us, t, k);
                if updates_key(us, t, k) {
                    assert(same_at(a1, apply_updates(m0, us, t), k));
                } else {
                    assert(same_at(a1, m1, k));
                }
            }
            assert(a1.restrict(rk) =~= m1);
        } else {
            assert forall|x: u32| #[trigger] touches(us, x) implies be_bytes(t) != be_bytes(x) by {
                lemma_be_injective(t, x);
            }
            assert(same_at(s2.data_map(), s1.data_map(), be_bytes(t)));
        }
    }
}

} // verus!
