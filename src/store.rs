//! The task store: four tables, written by atomic snapshots and read by
//! lookups that never fail.
//!
//! - `meta`: key `0` holds the journal of pending operations, key `1` the next
//!   free task id (four big-endian bytes).
//! - `data`: task id to the encoded item set of the task.
//! - `forward`: encoded task type to task id, through extended keys.
//! - `reverse`: task id to encoded task type.
//!
//! A snapshot is written to copies of the tables, which replace the tables
//! only when every step has succeeded. Only one snapshot is written at a time:
//! it takes the store by `&mut`.
use vstd::prelude::*;
use crate::codec::{pairs_encoding, list_encoding, list_decoding, list_view, encode_pairs, decode_pairs, encode_list, decode_list};
use crate::ext_key::{self, decoded, buckets_valid, ext_lookup, MAX_KEY_LEN};
use crate::items::{ItemSchema, ItemsOutcome, readable_keys, fatal, resolve_items};
use crate::keys::{IntKey, as_u32, be_bytes, be_value, lemma_be_injective};
use crate::table::{Pair, Table, pairs_map, pairs_view};

verus! {

/// The key in `meta` of the journal of pending operations.
pub const META_KEY_OPERATIONS: u32 = 0;

/// The key in `meta` of the next free task id.
pub const META_KEY_NEXT_FREE_TASK_ID: u32 = 1;

/// Every value of the table is an encoding of pairs.
pub open spec fn values_valid(m: Map<Seq<u8>, Seq<u8>>) -> bool {
    forall|k: Seq<u8>| #[trigger] m.contains_key(k) ==> decoded(m[k]) is Some
}

/// The next free task id that `meta` records; `1` when it records none.
pub open spec fn next_id_of(meta: Map<Seq<u8>, Seq<u8>>) -> u32 {
    let k = be_bytes(META_KEY_NEXT_FREE_TASK_ID);
    if meta.contains_key(k) && meta[k].len() == 4 {
        be_value(meta[k])
    } else {
        1
    }
}

/// The pairs that `data` holds for task `t`; none when it holds nothing.
pub open spec fn stored_pairs(data: Map<Seq<u8>, Seq<u8>>, t: u32) -> Seq<Pair> {
    if data.contains_key(be_bytes(t)) && decoded(data[be_bytes(t)]) is Some {
        decoded(data[be_bytes(t)])->Some_0
    } else {
        Seq::empty()
    }
}

/// The items that `data` holds for task `t`, by item key.
pub open spec fn stored_items(data: Map<Seq<u8>, Seq<u8>>, t: u32) -> Map<Seq<u8>, Seq<u8>> {
    pairs_map(stored_pairs(data, t))
}

/// The task id that `forward` records for the encoded task type `ty`.
pub open spec fn forward_of(forward: Map<Seq<u8>, Seq<u8>>, ty: Seq<u8>) -> Option<u32> {
    match ext_lookup(forward, ty) {
        Some(v) => if v.len() == 4 {
            Some(be_value(v))
        } else {
            None
        },
        None => None,
    }
}

/// One change of a task's items: set `key` to `value`, or remove it when
/// `value` is `None`.
#[derive(Debug)]
pub struct DataUpdate {
    pub task: u32,
    pub key: Vec<u8>,
    pub value: Option<Vec<u8>>,
}

/// A data update, as values.
pub type UpdateV = (u32, Seq<u8>, Option<Seq<u8>>);

pub open spec fn update_view(u: DataUpdate) -> UpdateV {
    (u.task, u.key@, match u.value {
        Some(v) => Some(v@),
        None => None,
    })
}

pub open spec fn updates_view(us: Seq<DataUpdate>) -> Seq<UpdateV> {
    us.map_values(|u: DataUpdate| update_view(u))
}

/// The items of task `t` after the updates `us`, applied in order to `m`.
pub open spec fn apply_updates(m: Map<Seq<u8>, Seq<u8>>, us: Seq<UpdateV>, t: u32) -> Map<Seq<u8>, Seq<u8>>
    decreases us.len(),
{
    if us.len() == 0 {
        m
    } else {
        let p = apply_updates(m, us.drop_last(), t);
        let u = us.last();
        if u.0 != t {
            p
        } else {
            match u.2 {
                Some(v) => p.insert(u.1, v),
                None => p.remove(u.1),
            }
        }
    }
}

/// Some update of `us` is for task `t`.
pub open spec fn touches(us: Seq<UpdateV>, t: u32) -> bool {
    exists|i: int| 0 <= i < us.len() && #[trigger] us[i].0 == t
}

/// A registration of a task type with a task id, as values.
pub open spec fn registrations_view(rs: Seq<(Vec<u8>, u32)>) -> Seq<(Seq<u8>, u32)> {
    rs.map_values(|r: (Vec<u8>, u32)| (r.0@, r.1))
}

/// The id that the last registration of `ty` in `rs` gives it.
pub open spec fn last_registration(rs: Seq<(Seq<u8>, u32)>, ty: Seq<u8>) -> Option<u32>
    decreases rs.len(),
{
    if rs.len() == 0 {
        None
    } else if rs.last().0 == ty {
        Some(rs.last().1)
    } else {
        last_registration(rs.drop_last(), ty)
    }
}

/// The reverse table after the registrations `rs`.
pub open spec fn reverse_after(m: Map<Seq<u8>, Seq<u8>>, rs: Seq<(Seq<u8>, u32)>) -> Map<Seq<u8>, Seq<u8>>
    decreases rs.len(),
{
    if rs.len() == 0 {
        m
    } else {
        reverse_after(m, rs.drop_last()).insert(be_bytes(rs.last().1), rs.last().0)
    }
}

/// The next free id after the registrations `rs`, starting from `n`.
pub open spec fn next_after(n: u32, rs: Seq<(Seq<u8>, u32)>) -> int
    decreases rs.len(),
{
    if rs.len() == 0 {
        n as int
    } else {
        let p = next_after(n, rs.drop_last());
        if p > rs.last().1 + 1 {
            p
        } else {
            rs.last().1 + 1
        }
    }
}

/// `a` and `b` agree at `k`.
pub open spec fn same_at(a: Map<Seq<u8>, Seq<u8>>, b: Map<Seq<u8>, Seq<u8>>, k: Seq<u8>) -> bool {
    a.contains_key(k) == b.contains_key(k) && (b.contains_key(k) ==> a[k] == b[k])
}

/// What a snapshot that succeeded leaves in the tables of `new`, written on
/// the tables of `old`: the journal replaced, the next free id raised past
/// every registered id, each registration entered in both directions, and
/// the item set of every touched task replaced by its items after the
/// updates, less those that the schema cannot read back.
pub open spec fn snapshot_applied(
    old: TaskStore,
    new: TaskStore,
    ops: Seq<Seq<u8>>,
    rs: Seq<(Seq<u8>, u32)>,
    us: Seq<UpdateV>,
    schema: &ItemSchema,
) -> bool {
    &&& forall|i: int| 0 <= i < rs.len() ==> 0 < (#[trigger] rs[i]).1 < u32::MAX
    &&& new.meta_map() == old.meta_map().insert(
        be_bytes(META_KEY_NEXT_FREE_TASK_ID),
        be_bytes(next_after(next_id_of(old.meta_map()), rs) as u32),
    ).insert(be_bytes(META_KEY_OPERATIONS), list_encoding(ops))
    &&& forall|ty: Seq<u8>| #[trigger] ext_lookup(new.forward_map(), ty) == match last_registration(rs, ty) {
        Some(id) => Some(be_bytes(id)),
        None => ext_lookup(old.forward_map(), ty),
    }
    &&& new.reverse_map() == reverse_after(old.reverse_map(), rs)
    &&& forall|t: u32| #[trigger] touches(us, t) ==> new.data_map().contains_key(be_bytes(t))
        && stored_items(new.data_map(), t) == apply_updates(stored_items(old.data_map(), t), us, t).restrict(
        readable_keys(schema))
    &&& forall|k: Seq<u8>| (forall|t: u32| #[trigger] touches(us, t) ==> k != be_bytes(t)) ==> same_at(
        new.data_map(),
        old.data_map(),
        k,
    )
}

/// Why a snapshot was not written.
#[derive(Debug)]
pub enum SnapshotError {
    /// A registration uses the largest id, after which no id is free.
    IdExhausted,
    /// A registration uses id `0`, which no task has.
    ReservedId,
    /// A required item of a task cannot be read back; the task and the item key.
    RequiredItem { task: u32, key: Vec<u8> },
}

/// One of the store's four tables.
#[derive(Debug, Clone, Copy, PartialEq, Eq, Structural)]
pub enum TableId {
    Meta,
    Data,
    Forward,
    Reverse,
}

/// The store.
pub struct TaskStore {
    meta: Table,
    data: Table,
    forward: Table,
    reverse: Table,
}

impl TaskStore {
    pub closed spec fn meta_map(&self) -> Map<Seq<u8>, Seq<u8>> {
        self.meta@
    }

    pub closed spec fn data_map(&self) -> Map<Seq<u8>, Seq<u8>> {
        self.data@
    }

    pub closed spec fn forward_map(&self) -> Map<Seq<u8>, Seq<u8>> {
        self.forward@
    }

    pub closed spec fn reverse_map(&self) -> Map<Seq<u8>, Seq<u8>> {
        self.reverse@
    }

    /// The tables hold unique keys, every bucket of `forward` and every item
    /// set of `data` decodes.
    pub closed spec fn wf(&self) -> bool {
        &&& self.meta.wf()
        &&& self.data.wf()
        &&& self.forward.wf()
        &&& self.reverse.wf()
        &&& buckets_valid(self.forward@)
        &&& values_valid(self.data@)
    }

    /// An empty store.
    pub fn new() -> (r: TaskStore)
        ensures
            r.wf(),
            r.meta_map().is_empty(),
            r.data_map().is_empty(),
            r.forward_map().is_empty(),
            r.reverse_map().is_empty(),
    {
        TaskStore { meta: Table::new(), data: Table::new(), forward: Table::new(), reverse: Table::new() }
    }

    /// The map of one of the tables.
    pub open spec fn table_map(&self, which: TableId) -> Map<Seq<u8>, Seq<u8>> {
        match which {
            TableId::Meta => self.meta_map(),
            TableId::Data => self.data_map(),
            TableId::Forward => self.forward_map(),
            TableId::Reverse => self.reverse_map(),
        }
    }

    /// The entries of one of the tables, each key once.
    pub fn entries(&self, which: TableId) -> (r: Vec<(Vec<u8>, Vec<u8>)>)
        requires
            self.wf(),
        ensures
            pairs_map(pairs_view(r@)) == self.table_map(which),
            crate::table::unique_keys(pairs_view(r@)),
    {
        let t = match which {
            TableId::Meta => &self.meta,
            TableId::Data => &self.data,
            TableId::Forward => &self.forward,
            TableId::Reverse => &self.reverse,
        };
        proof {
            t.lemma_view();
        }
        t.to_pairs()
    }

    /// A store made of stored tables. An entry of `data`, or a bucket of
    /// `forward`, is kept exactly when its value is an encoding of pairs; a
    /// later entry wins over an earlier one with the same key.
    pub fn from_entries(
        meta: &Vec<(Vec<u8>, Vec<u8>)>,
        data: &Vec<(Vec<u8>, Vec<u8>)>,
        forward: &Vec<(Vec<u8>, Vec<u8>)>,
        reverse: &Vec<(Vec<u8>, Vec<u8>)>,
    ) -> (r: TaskStore)
        ensures
            r.wf(),
            r.meta_map() == pairs_map(pairs_view(meta@)),
            r.reverse_map() == pairs_map(pairs_view(reverse@)),
            forall|k: Seq<u8>| #[trigger] r.data_map().contains_key(k) <==> pairs_map(pairs_view(data@)).contains_key(k)
                && decoded(pairs_map(pairs_view(data@))[k]) is Some,
            forall|k: Seq<u8>| #[trigger] r.data_map().contains_key(k) ==> r.data_map()[k] == pairs_map(
                pairs_view(data@),
            )[k],
            forall|k: Seq<u8>| #[trigger] r.forward_map().contains_key(k) <==> pairs_map(pairs_view(forward@)).contains_key(k)
                && (k.len() != MAX_KEY_LEN || decoded(pairs_map(pairs_view(forward@))[k]) is Some),
            forall|k: Seq<u8>| #[trigger] r.forward_map().contains_key(k) ==> r.forward_map()[k] == pairs_map(
                pairs_view(forward@),
            )[k],
    {
        let m = Table::from_pairs(meta);
        let rv = Table::from_pairs(reverse);
        let d = Table::from_pairs(data);
        let f = Table::from_pairs(forward);
        let mut data_t = Table::new();
        let mut forward_t = Table::new();
        let dp = d.to_pairs();
        let fp = f.to_pairs();
        proof {
            d.lemma_view();
            f.lemma_view();
        }
        let ghost ds = pairs_view(dp@);
        let ghost fs = pairs_view(fp@);
        let mut i: usize = 0;
        while i < dp.len()
            invariant
                i <= dp@.len(),
                ds == pairs_view(dp@),
                crate::table::unique_keys(ds),
                pairs_map(ds) == d@,
                d@ == pairs_map(pairs_view(data@)),
                data_t.wf(),
                values_valid(data_t@),
                forall|k: Seq<u8>| #[trigger] data_t@.contains_key(k) ==> d@.contains_key(k) && data_t@[k] == d@[k],
                forall|j: int| 0 <= j < i && decoded((#[trigger] ds[j]).1) is Some ==> data_t@.contains_key(ds[j].0),
            decreases dp@.len() - i,
        {
            proof {
                assert(ds[i as int] == (dp@[i as int].0@, dp@[i as int].1@));
                crate::table::lemma_pairs_map_index(ds, i as int);
            }
            let ghost prev = data_t@;
            if reads_back(dp[i].1.as_slice()) {
                data_t.put(dp[i].0.as_slice(), dp[i].1.as_slice());
                proof {
                    assert forall|k: Seq<u8>| #[trigger] data_t@.contains_key(k) implies decoded(data_t@[k]) is Some by {
                        if k != dp@[i as int].0@ {
                            assert(prev.contains_key(k));
                        }
                    }
                }
            }
            proof {
                assert forall|j: int| 0 <= j < i + 1 && decoded((#[trigger] ds[j]).1) is Some implies data_t@.contains_key(
                    ds[j].0,
                ) by {
                    if j < i {
                        assert(prev.contains_key(ds[j].0));
                    }
                }
            }
            i = i + 1;
        }
        let mut j: usize = 0;
        while j < fp.len()
            invariant
                j <= fp@.len(),
                fs == pairs_view(fp@),
                crate::table::unique_keys(fs),
                pairs_map(fs) == f@,
                f@ == pairs_map(pairs_view(forward@)),
                forward_t.wf(),
                buckets_valid(forward_t@),
                forall|k: Seq<u8>| #[trigger] forward_t@.contains_key(k) ==> f@.contains_key(k) && forward_t@[k] == f@[k]
                    && (k.len() != MAX_KEY_LEN || decoded(f@[k]) is Some),
                forall|x: int| 0 <= x < j && ((#[trigger] fs[x]).0.len() != MAX_KEY_LEN || decoded(fs[x].1) is Some)
                    ==> forward_t@.contains_key(fs[x].0),
            decreases fp@.len() - j,
        {
            proof {
                assert(fs[j as int] == (fp@[j as int].0@, fp@[j as int].1@));
                crate::table::lemma_pairs_map_index(fs, j as int);
            }
            let key = fp[j].0.as_slice();
            let ghost prev = forward_t@;
            if key.len() != MAX_KEY_LEN || reads_back(fp[j].1.as_slice()) {
                forward_t.put(key, fp[j].1.as_slice());
                proof {
                    assert forall|b: Seq<u8>| #[trigger] forward_t@.contains_key(b) && b.len() == MAX_KEY_LEN implies decoded(
                        forward_t@[b],
                    ) is Some by {
                        if b != key@ {
                            assert(prev.contains_key(b));
                        }
                    }
                }
            }
            proof {
                assert forall|x: int| 0 <= x < j + 1 && ((#[trigger] fs[x]).0.len() != MAX_KEY_LEN || decoded(fs[x].1) is Some)
                    implies forward_t@.contains_key(fs[x].0) by {
                    if x < j {
                        assert(prev.contains_key(fs[x].0));
                    }
                }
            }
            j = j + 1;
        }
        proof {
            assert forall|k: Seq<u8>| #[trigger] data_t@.contains_key(k) <==> d@.contains_key(k) && decoded(d@[k]) is Some by {
                if d@.contains_key(k) && decoded(d@[k]) is Some {
                    if forall|x: int| 0 <= x < ds.len() ==> ds[x].0 != k {
                        crate::table::lemma_pairs_map_absent(ds, k);
                    }
                    let x = choose|x: int| 0 <= x < ds.len() && ds[x].0 == k;
                    crate::table::lemma_pairs_map_index(ds, x);
                }
            }
            assert forall|k: Seq<u8>| #[trigger] forward_t@.contains_key(k) <==> f@.contains_key(k) && (k.len()
                != MAX_KEY_LEN || decoded(f@[k]) is Some) by {
                if f@.contains_key(k) && (k.len() != MAX_KEY_LEN || decoded(f@[k]) is Some) {
                    if forall|x: int| 0 <= x < fs.len() ==> fs[x].0 != k {
                        crate::table::lemma_pairs_map_absent(fs, k);
                    }
                    let x = choose|x: int| 0 <= x < fs.len() && fs[x].0 == k;
                    crate::table::lemma_pairs_map_index(fs, x);
                }
            }
        }
        TaskStore { meta: m, data: data_t, forward: forward_t, reverse: rv }
    }

    /// The next task id that is free: `1` when none is recorded.
    pub fn next_free_task_id(&self) -> (r: u32)
        requires
            self.wf(),
        ensures
            r == next_id_of(self.meta_map()),
    {
        let key = IntKey::new(META_KEY_NEXT_FREE_TASK_ID);
        match self.meta.get(key.as_bytes()) {
            Some(v) => match as_u32(v.as_slice()) {
                Ok(n) => n,
                Err(_) => 1,
            },
            None => 1,
        }
    }

    /// The journal of pending operations; empty when none is recorded or it
    /// does not decode.
    pub fn uncompleted_operations(&self) -> (r: Vec<Vec<u8>>)
        requires
            self.wf(),
        ensures
            !self.meta_map().contains_key(be_bytes(META_KEY_OPERATIONS)) ==> r@.len() == 0,
            self.meta_map().contains_key(be_bytes(META_KEY_OPERATIONS)) ==> match list_decoding(
                self.meta_map()[be_bytes(META_KEY_OPERATIONS)],
            ) {
                Some(s) => list_view(r@) == s,
                None => r@.len() == 0,
            },
            forall|s: Seq<Seq<u8>>|
                self.meta_map().contains_key(be_bytes(META_KEY_OPERATIONS))
                    && #[trigger] list_encoding(s) == self.meta_map()[be_bytes(META_KEY_OPERATIONS)]
                    ==> list_view(r@) == s,
    {
        let key = IntKey::new(META_KEY_OPERATIONS);
        match self.meta.get(key.as_bytes()) {
            Some(v) => match decode_list(v.as_slice()) {
                Some(ops) => ops,
                None => Vec::new(),
            },
            None => Vec::new(),
        }
    }

    /// The task id registered for the encoded task type `task_type`.
    pub fn forward_lookup_task_cache(&self, task_type: &[u8]) -> (r: Option<u32>)
        requires
            self.wf(),
        ensures
            r == forward_of(self.forward_map(), task_type@),
    {
        match ext_key::get(&self.forward, task_type) {
            Some(v) => match as_u32(v.as_slice()) {
                Ok(n) => Some(n),
                Err(_) => None,
            },
            None => None,
        }
    }

    /// The encoded task type registered for `task_id`.
    pub fn reverse_lookup_task_cache(&self, task_id: u32) -> (r: Option<Vec<u8>>)
        requires
            self.wf(),
        ensures
            r is Some <==> self.reverse_map().contains_key(be_bytes(task_id)),
            r is Some ==> r->Some_0@ == self.reverse_map()[be_bytes(task_id)],
    {
        let key = IntKey::new(task_id);
        self.reverse.get(key.as_bytes())
    }

    /// Writes a snapshot: `operations` replaces the journal of pending
    /// operations, each (task type, task id) of `task_cache_updates` is
    /// registered in both directions, and `data_updates` are applied to the
    /// item sets of their tasks, in order. It succeeds unless a registration
    /// uses id `0` or the largest id, or a touched task would keep a required
    /// item that cannot be read back; then nothing is written.
    pub fn save_snapshot(
        &mut self,
        operations: &Vec<Vec<u8>>,
        task_cache_updates: &Vec<(Vec<u8>, u32)>,
        data_updates: &Vec<DataUpdate>,
        schema: &ItemSchema,
    ) -> (r: Result<(), SnapshotError>)
        requires
            old(self).wf(),
        ensures
            final(self).wf(),
            r is Err ==> *final(self) == *old(self),
            r is Ok ==> snapshot_applied(
                *old(self),
                *final(self),
                list_view(operations@),
                registrations_view(task_cache_updates@),
                updates_view(data_updates@),
                schema,
            ),
            r is Ok <==> (forall|i: int|
                0 <= i < task_cache_updates@.len() ==> 0 < (#[trigger] task_cache_updates@[i]).1 < u32::MAX)
                && !some_fatal(old(self).data_map(), updates_view(data_updates@), schema),
            r matches Err(SnapshotError::IdExhausted) <==> exists|i: int|
                0 <= i < task_cache_updates@.len() && (#[trigger] task_cache_updates@[i]).1 == u32::MAX,
            r matches Err(SnapshotError::ReservedId) ==> exists|i: int|
                0 <= i < task_cache_updates@.len() && (#[trigger] task_cache_updates@[i]).1 == 0,
            r matches Err(SnapshotError::RequiredItem { task, key }) ==> touches(updates_view(data_updates@), task)
                && apply_updates(stored_items(old(self).data_map(), task), updates_view(data_updates@), task).contains_key(
                key@) && fatal(schema, key@),
    {
        if !ids_in_range(task_cache_updates) {
            return Err(SnapshotError::IdExhausted);
        }
        if !ids_not_reserved(task_cache_updates) {
            proof {
                let i = choose|i: int| 0 <= i < task_cache_updates@.len() && !((#[trigger] task_cache_updates@[i]).1 > 0);
                assert(!(0 < task_cache_updates@[i].1 < u32::MAX));
            }
            return Err(SnapshotError::ReservedId);
        }
        let n = self.next_free_task_id();
        proof {
            let rv = registrations_view(task_cache_updates@);
            assert forall|i: int| 0 <= i < rv.len() implies 0 < (#[trigger] rv[i]).1 < u32::MAX by {
                assert(rv[i].1 == task_cache_updates@[i].1);
            }
        }
        let mut meta = self.meta.clone();
        let mut data = self.data.clone();
        let mut forward = self.forward.clone();
        let mut reverse = self.reverse.clone();
        match write_data(&mut data, data_updates, schema) {
            Ok(()) => {},
            Err(e) => {
                return Err(e);
            },
        }
        let next = register_tasks(&mut forward, &mut reverse, task_cache_updates, n);
        let next_key = IntKey::new(META_KEY_NEXT_FREE_TASK_ID);
        let next_value = IntKey::new(next);
        meta.put(next_key.as_bytes(), next_value.as_bytes());
        let journal = encode_list(operations);
        let ops_key = IntKey::new(META_KEY_OPERATIONS);
        meta.put(ops_key.as_bytes(), journal.as_slice());
        self.meta = meta;
        self.data = data;
        self.forward = forward;
        self.reverse = reverse;
        Ok(())
    }

    /// The items of `task_id`, as (item key, value) pairs, each item key
    /// once; empty when the store holds none.
    pub fn lookup_data(&self, task_id: u32) -> (r: Vec<(Vec<u8>, Vec<u8>)>)
        requires
            self.wf(),
        ensures
            pairs_map(pairs_view(r@)) == stored_items(self.data_map(), task_id),
            crate::table::unique_keys(pairs_view(r@)),
    {
        let key = IntKey::new(task_id);
        let items = match self.data.get(key.as_bytes()) {
            Some(v) => match ext_key::read_bucket(v.as_slice()) {
                Some(items) => items,
                None => Table::new(),
            },
            None => Table::new(),
        };
        proof {
            items.lemma_view();
        }
        items.to_pairs()
    }
}

/// Whether no registration uses the largest id.
fn ids_in_range(rs: &Vec<(Vec<u8>, u32)>) -> (r: bool)
    ensures
        r == (forall|i: int| 0 <= i < rs@.len() ==> (#[trigger] rs@[i]).1 < u32::MAX),
{
    let mut i: usize = 0;
    while i < rs.len()
        invariant
            i <= rs@.len(),
            forall|j: int| 0 <= j < i ==> (#[trigger] rs@[j]).1 < u32::MAX,
        decreases rs@.len() - i,
    {
        if rs[i].1 == u32::MAX {
            return false;
        }
        i = i + 1;
    }
    true
}

/// Whether no registration uses id `0`.
fn ids_not_reserved(rs: &Vec<(Vec<u8>, u32)>) -> (r: bool)
    ensures
        r == (forall|i: int| 0 <= i < rs@.len() ==> (#[trigger] rs@[i]).1 > 0),
{
    let mut i: usize = 0;
    while i < rs.len()
        invariant
            i <= rs@.len(),
            forall|j: int| 0 <= j < i ==> (#[trigger] rs@[j]).1 > 0,
        decreases rs@.len() - i,
    {
        if rs[i].1 == 0 {
            return false;
        }
        i = i + 1;
    }
    true
}

/// Enters each registration in `forward` and `reverse`, and returns the next
/// free id after them, starting from `n`.
fn register_tasks(forward: &mut Table, reverse: &mut Table, rs: &Vec<(Vec<u8>, u32)>, n: u32) -> (r: u32)
    requires
        old(forward).wf(),
        old(reverse).wf(),
        buckets_valid(old(forward)@),
        forall|i: int| 0 <= i < rs@.len() ==> (#[trigger] rs@[i]).1 < u32::MAX,
    ensures
        final(forward).wf(),
        final(reverse).wf(),
        buckets_valid(final(forward)@),
        r == next_after(n, registrations_view(rs@)),
        forall|ty: Seq<u8>| #[trigger] ext_lookup(final(forward)@, ty) == match last_registration(
            registrations_view(rs@),
            ty,
        ) {
            Some(id) => Some(be_bytes(id)),
            None => ext_lookup(old(forward)@, ty),
        },
        final(reverse)@ == reverse_after(old(reverse)@, registrations_view(rs@)),
{
    let ghost f0 = forward@;
    let ghost r0 = reverse@;
    let ghost rv = registrations_view(rs@);
    let mut next: u32 = n;
    let mut i: usize = 0;
    while i < rs.len()
        invariant
            i <= rs@.len(),
            rv == registrations_view(rs@),
            forall|j: int| 0 <= j < rs@.len() ==> (#[trigger] rs@[j]).1 < u32::MAX,
            forward.wf(),
            reverse.wf(),
            buckets_valid(forward@),
            next == next_after(n, rv.subrange(0, i as int)),
            forall|ty: Seq<u8>| #[trigger] ext_lookup(forward@, ty) == match last_registration(
                rv.subrange(0, i as int),
                ty,
            ) {
                Some(id) => Some(be_bytes(id)),
                None => ext_lookup(f0, ty),
            },
            reverse@ == reverse_after(r0, rv.subrange(0, i as int)),
        decreases rs@.len() - i,
    {
        let ty = rs[i].0.as_slice();
        let id = rs[i].1;
        let key = IntKey::new(id);
        let ghost fprev = forward@;
        ext_key::put(forward, ty, key.as_bytes());
        reverse.put(key.as_bytes(), ty);
        proof {
            let p = rv.subrange(0, i + 1);
            assert(p.drop_last() =~= rv.subrange(0, i as int));
            assert(p.last() == (ty@, id));
            assert forall|t: Seq<u8>| #[trigger] ext_lookup(forward@, t) == match last_registration(p, t) {
                Some(x) => Some(be_bytes(x)),
                None => ext_lookup(f0, t),
            } by {
                if t != ty@ {
                    assert(ext_lookup(forward@, t) == ext_lookup(fprev, t));
                }
            }
        }
        if id + 1 > next {
            next = id + 1;
        }
        i = i + 1;
    }
    proof {
        assert(rv.subrange(0, i as int) =~= rv);
    }
    next
}

/// The tasks that the updates touch, each once.
fn touched_tasks(us: &Vec<DataUpdate>) -> (r: Vec<u32>)
    ensures
        forall|t: u32| touches(updates_view(us@), t) <==> r@.contains(t),
        r@.no_duplicates(),
{
    let ghost uv = updates_view(us@);
    let mut r: Vec<u32> = Vec::new();
    let mut i: usize = 0;
    while i < us.len()
        invariant
            i <= us@.len(),
            uv == updates_view(us@),
            forall|t: u32| touches(uv.subrange(0, i as int), t) <==> r@.contains(t),
            r@.no_duplicates(),
        decreases us@.len() - i,
    {
        let t = us[i].task;
        let mut found = false;
        let mut j: usize = 0;
        while j < r.len()
            invariant
                j <= r@.len(),
                found ==> r@.contains(t),
                !found ==> forall|k: int| 0 <= k < j ==> r@[k] != t,
            decreases r@.len() - j,
        {
            if r[j] == t {
                found = true;
            }
            j = j + 1;
        }
        let ghost before = r@;
        if !found {
            r.push(t);
        }
        proof {
            let p = uv.subrange(0, i + 1);
            assert(p[i as int].0 == t);
            assert forall|x: u32| touches(p, x) <==> r@.contains(x) by {
                if touches(p, x) {
                    let k = choose|k: int| 0 <= k < p.len() && #[trigger] p[k].0 == x;
                    if k < i {
                        assert(uv.subrange(0, i as int)[k].0 == x);
                    }
                    if !found && x == t {
                        assert(r@[r@.len() - 1] == t);
                    } else if x != t {
                        assert(before.contains(x));
                        let m = choose|m: int| 0 <= m < before.len() && before[m] == x;
                        assert(r@[m] == x);
                    }
                }
                if r@.contains(x) {
                    if x == t {
                        assert(p[i as int].0 == x);
                    } else {
                        let m = choose|m: int| 0 <= m < r@.len() && r@[m] == x;
                        assert(before[m] == x);
                        assert(before.contains(x));
                        let k = choose|k: int| 0 <= k < i && #[trigger] uv.subrange(0, i as int)[k].0 == x;
                        assert(p[k].0 == x);
                    }
                }
            }
        }
        i = i + 1;
    }
    proof {
        assert(uv.subrange(0, i as int) =~= uv);
    }
    r
}

/// The stored items of task `t`.
fn task_items(data: &Table, t: u32) -> (r: Table)
    requires
        data.wf(),
        values_valid(data@),
    ensures
        r.wf(),
        r@ == stored_items(data@, t),
{
    let key = IntKey::new(t);
    match data.get(key.as_bytes()) {
        None => Table::new(),
        Some(v) => match ext_key::read_bucket(v.as_slice()) {
            Some(items) => items,
            None => Table::new(),
        },
    }
}

/// Applies to `items` the updates of `us` that are for task `t`, in order.
fn apply_task_updates(items: &mut Table, us: &Vec<DataUpdate>, t: u32)
    requires
        old(items).wf(),
    ensures
        final(items).wf(),
        final(items)@ == apply_updates(old(items)@, updates_view(us@), t),
{
    let ghost m0 = items@;
    let ghost uv = updates_view(us@);
    let mut i: usize = 0;
    while i < us.len()
        invariant
            i <= us@.len(),
            uv == updates_view(us@),
            items.wf(),
            items@ == apply_updates(m0, uv.subrange(0, i as int), t),
        decreases us@.len() - i,
    {
        proof {
            let p = uv.subrange(0, i + 1);
            assert(p.drop_last() =~= uv.subrange(0, i as int));
            assert(p.last() == update_view(us@[i as int]));
        }
        if us[i].task == t {
            match &us[i].value {
                Some(v) => items.put(us[i].key.as_slice(), v.as_slice()),
                None => items.remove(us[i].key.as_slice()),
            }
        }
        i = i + 1;
    }
    proof {
        assert(uv.subrange(0, i as int) =~= uv);
    }
}

/// The key of some task of `ts` is `k`.
pub open spec fn task_key_among(ts: Seq<u32>, k: Seq<u8>) -> bool {
    exists|j: int| 0 <= j < ts.len() && be_bytes(#[trigger] ts[j]) == k
}

/// After the updates `us`, task `t` holds an item that cannot be read back
/// and may not be lost.
pub open spec fn task_has_fatal(data: Map<Seq<u8>, Seq<u8>>, us: Seq<UpdateV>, schema: &ItemSchema, t: u32) -> bool {
    exists|k: Seq<u8>| #[trigger] apply_updates(stored_items(data, t), us, t).contains_key(k) && fatal(schema, k)
}

/// Some task that `us` touches holds, after the updates, an item that cannot
/// be read back and may not be lost.
pub open spec fn some_fatal(data: Map<Seq<u8>, Seq<u8>>, us: Seq<UpdateV>, schema: &ItemSchema) -> bool {
    exists|t: u32| #[trigger] touches(us, t) && task_has_fatal(data, us, schema, t)
}

/// Replaces the item set of every task that `us` touches by its items after
/// the updates, less those that `schema` cannot read back.
fn write_data(data: &mut Table, us: &Vec<DataUpdate>, schema: &ItemSchema) -> (r: Result<(), SnapshotError>)
    requires
        old(data).wf(),
        values_valid(old(data)@),
    ensures
        final(data).wf(),
        values_valid(final(data)@),
        r is Ok ==> forall|t: u32| #[trigger] touches(updates_view(us@), t) ==> final(data)@.contains_key(be_bytes(t))
            && stored_items(final(data)@, t) == apply_updates(stored_items(old(data)@, t), updates_view(us@), t).restrict(
            readable_keys(schema)),
        r is Ok ==> forall|k: Seq<u8>| (forall|t: u32| #[trigger] touches(updates_view(us@), t) ==> k != be_bytes(t))
            ==> same_at(final(data)@, old(data)@, k),
        r is Ok <==> !some_fatal(old(data)@, updates_view(us@), schema),
        r is Err ==> r->Err_0 is RequiredItem,
        r matches Err(SnapshotError::RequiredItem { task, key }) ==> touches(updates_view(us@), task)
            && apply_updates(stored_items(old(data)@, task), updates_view(us@), task).contains_key(key@)
            && fatal(schema, key@),
{
    let ghost d0 = data@;
    let ghost uv = updates_view(us@);
    let tasks = touched_tasks(us);
    let mut w: usize = 0;
    while w < tasks.len()
        invariant
            w <= tasks@.len(),
            d0 == old(data)@,
            uv == updates_view(us@),
            forall|t: u32| touches(uv, t) <==> tasks@.contains(t),
            tasks@.no_duplicates(),
            data.wf(),
            values_valid(data@),
            forall|j: int| 0 <= j < w ==> data@.contains_key(be_bytes(#[trigger] tasks@[j])) && stored_items(data@, tasks@[j])
                == apply_updates(stored_items(d0, tasks@[j]), uv, tasks@[j]).restrict(readable_keys(schema)),
            forall|k: Seq<u8>| #[trigger] task_key_among(tasks@.subrange(0, w as int), k) || same_at(data@, d0, k),
            forall|j: int| 0 <= j < w ==> !task_has_fatal(d0, uv, schema, #[trigger] tasks@[j]),
        decreases tasks@.len() - w,
    {
        let t = tasks[w];
        let ghost dprev = data@;
        proof {
            if task_key_among(tasks@.subrange(0, w as int), be_bytes(t)) {
                let j = choose|j: int| 0 <= j < w && be_bytes(#[trigger] tasks@.subrange(0, w as int)[j]) == be_bytes(t);
                lemma_be_injective(t, tasks@[j]);
                assert(tasks@[j] == tasks@[w as int]);
            }
            assert(same_at(data@, d0, be_bytes(t)));
            assert(stored_items(data@, t) == stored_items(d0, t));
        }
        let mut items = task_items(data, t);
        let ghost start = items@;
        apply_task_updates(&mut items, us, t);
        proof {
            assert(start == stored_items(d0, t));
            assert(items@ == apply_updates(stored_items(d0, t), uv, t));
        }
        let kept = match resolve_items(schema, &items) {
            ItemsOutcome::Fatal(key) => {
                proof {
                    assert(tasks@[w as int] == t);
                    assert(tasks@.contains(t));
                    assert(touches(uv, t));
                    assert(items@.contains_key(key@));
                    assert(task_has_fatal(d0, uv, schema, t));
                }
                return Err(SnapshotError::RequiredItem { task: t, key });
            },
            ItemsOutcome::Complete(kept) => {
                proof {
                    assert(kept@ =~= items@.restrict(readable_keys(schema)));
                }
                kept
            },
            ItemsOutcome::Recovered { kept, dropped } => kept,
        };
        proof {
            assert(!task_has_fatal(d0, uv, schema, t));
        }
        let encoded = ext_key::encode_table(&kept);
        proof {
            kept.lemma_view();
        }
        let key = IntKey::new(t);
        data.put(key.as_bytes(), encoded.as_slice());
        proof {
            assert forall|k: Seq<u8>| #[trigger] data@.contains_key(k) implies decoded(data@[k]) is Some by {
                if k != be_bytes(t) {
                    assert(dprev.contains_key(k));
                }
            }
            assert forall|j: int| 0 <= j < w + 1 implies !task_has_fatal(d0, uv, schema, #[trigger] tasks@[j]) by {
                if j == w {
                    assert(tasks@[j] == t);
                }
            }
            assert forall|j: int| 0 <= j < w + 1 implies data@.contains_key(be_bytes(#[trigger] tasks@[j]))
                && stored_items(data@, tasks@[j]) == apply_updates(stored_items(d0, tasks@[j]), uv, tasks@[j]).restrict(
                readable_keys(schema)) by {
                if j < w {
                    lemma_be_injective(t, tasks@[j]);
                    assert(stored_items(data@, tasks@[j]) == stored_items(dprev, tasks@[j]));
                }
            }
            let tw = tasks@.subrange(0, w + 1);
            assert forall|k: Seq<u8>| #[trigger] task_key_among(tw, k) || same_at(data@, d0, k) by {
                if !task_key_among(tw, k) {
                    assert(tw[w as int] == t);
                    assert(k != be_bytes(t));
                    if task_key_among(tasks@.subrange(0, w as int), k) {
                        let j = choose|j: int| 0 <= j < w && be_bytes(#[trigger] tasks@.subrange(0, w as int)[j]) == k;
                        assert(tw[j] == tasks@[j]);
                    }
                    assert(same_at(dprev, d0, k));
                }
            }
        }
        w = w + 1;
    }
    proof {
        if some_fatal(d0, uv, schema) {
            let t = choose|t: u32| #[trigger] touches(uv, t) && task_has_fatal(d0, uv, schema, t);
            assert(tasks@.contains(t));
            let j = choose|j: int| 0 <= j < tasks@.len() && tasks@[j] == t;
            assert(!task_has_fatal(d0, uv, schema, tasks@[j]));
        }
        assert forall|t: u32| #[trigger] touches(uv, t) implies data@.contains_key(be_bytes(t)) && stored_items(data@, t)
            == apply_updates(stored_items(d0, t), uv, t).restrict(readable_keys(schema)) by {
            assert(tasks@.contains(t));
            let j = choose|j: int| 0 <= j < tasks@.len() && tasks@[j] == t;
            assert(data@.contains_key(be_bytes(tasks@[j])));
        }
        assert forall|k: Seq<u8>| (forall|t: u32| #[trigger] touches(uv, t) ==> k != be_bytes(t)) implies same_at(
            data@,
            d0,
            k,
        ) by {
            if task_key_among(tasks@.subrange(0, w as int), k) {
                let j = choose|j: int| 0 <= j < w && be_bytes(#[trigger] tasks@.subrange(0, w as int)[j]) == k;
                assert(tasks@.contains(tasks@[j]));
                assert(touches(uv, tasks@[j]));
            }
        }
    }
    Ok(())
}

/// Whether `bytes` are an encoding of pairs: they decode to pairs that
/// encode back to them.
fn reads_back(bytes: &[u8]) -> (r: bool)
    ensures
        r == (decoded(bytes@) is Some),
{
    match decode_pairs(bytes) {
        None => {
            proof {
                if decoded(bytes@) is Some {
                    let c = choose|c: Seq<Pair>| pairs_encoding(c) == bytes@;
                    assert(pairs_encoding(c) == bytes@);
                }
            }
            false
        },
        Some(pairs) => {
            let again = encode_pairs(&pairs);
            let r = crate::table::bytes_eq(again.as_slice(), bytes);
            proof {
                if decoded(bytes@) is Some {
                    let c = choose|c: Seq<Pair>| pairs_encoding(c) == bytes@;
                    assert(pairs_encoding(c) == bytes@);
                    assert(pairs_view(pairs@) == c);
                }
                if r {
                    assert(pairs_encoding(pairs_view(pairs@)) == bytes@);
                }
            }
            r
        },
    }
}

} // verus!
