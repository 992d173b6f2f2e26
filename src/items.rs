//! Which cached data items survive a change of their schema: an item that the
//! current schema cannot read is dropped when it is optional, and fails the
//! write of its task when it is required.
use vstd::prelude::*;
use crate::table::{Table, pairs_map, lemma_pairs_map_index, lemma_pairs_map_absent};

verus! {

/// What the engine's current schema says of item kinds. The kind of an item is
/// the first byte of its key.
#[derive(Debug)]
pub struct ItemSchema {
    /// Kinds whose loss is tolerated.
    pub optional_kinds: Vec<u8>,
    /// Kinds that the current schema can no longer read back.
    pub unreadable_kinds: Vec<u8>,
}

/// Whether the kind of the item with key `key` is among `kinds`.
pub open spec fn kind_in(kinds: Seq<u8>, key: Seq<u8>) -> bool {
    key.len() > 0 && kinds.contains(key[0])
}

/// The item with key `key` can be read back.
pub open spec fn readable(schema: &ItemSchema, key: Seq<u8>) -> bool {
    !kind_in(schema.unreadable_kinds@, key)
}

/// The item with key `key` cannot be read back and may not be lost.
pub open spec fn fatal(schema: &ItemSchema, key: Seq<u8>) -> bool {
    !readable(schema, key) && !kind_in(schema.optional_kinds@, key)
}

/// The keys of the items that can be read back.
pub open spec fn readable_keys(schema: &ItemSchema) -> Set<Seq<u8>> {
    Set::new(|k: Seq<u8>| readable(schema, k))
}

/// The outcome of preparing a task's item set for writing.
pub enum ItemsOutcome {
    /// Every item can be written.
    Complete(Table),
    /// Optional items that cannot be read back were left out.
    Recovered { kept: Table, dropped: Vec<Vec<u8>> },
    /// A required item cannot be read back; its key.
    Fatal(Vec<u8>),
}

/// Whether `kinds` holds the kind of the item with key `key`.
pub fn has_kind(kinds: &Vec<u8>, key: &[u8]) -> (r: bool)
    ensures
        r == kind_in(kinds@, key@),
{
    if key.len() == 0 {
        return false;
    }
    let k = key[0];
    let mut i: usize = 0;
    while i < kinds.len()
        invariant
            i <= kinds@.len(),
            key@.len() > 0,
            k == key@[0],
            forall|j: int| 0 <= j < i ==> kinds@[j] != k,
        decreases kinds@.len() - i,
    {
        if kinds[i] == k {
            assert(kinds@[i as int] == key@[0]);
            return true;
        }
        i = i + 1;
    }
    false
}

/// Checks each item of `items` against `schema`: items that can be read back
/// are kept, optional ones that cannot are dropped, and a required one that
/// cannot is reported.
pub fn resolve_items(schema: &ItemSchema, items: &Table) -> (r: ItemsOutcome)
    requires
        items.wf(),
    ensures
        (exists|k: Seq<u8>| items@.contains_key(k) && fatal(schema, k)) <==> r is Fatal,
        r is Fatal ==> items@.contains_key(r->Fatal_0@) && fatal(schema, r->Fatal_0@),
        r is Complete ==> r->Complete_0.wf() && r->Complete_0@ == items@
            && forall|k: Seq<u8>| items@.contains_key(k) ==> readable(schema, k),
        r is Recovered ==> r->kept.wf() && r->kept@ == items@.restrict(readable_keys(schema))
            && r->dropped@.len() > 0
            && (forall|i: int| 0 <= i < r->dropped@.len() ==> items@.contains_key(#[trigger] r->dropped@[i]@)
                && !readable(schema, r->dropped@[i]@))
            && forall|k: Seq<u8>| items@.contains_key(k) && !readable(schema, k) ==> exists|i: int|
                0 <= i < r->dropped@.len() && (#[trigger] r->dropped@[i])@ == k,
{
    let pairs = items.to_pairs();
    let ghost s = items.pairs();
    proof {
        items.lemma_view();
    }
    let mut kept = Table::new();
    let mut dropped: Vec<Vec<u8>> = Vec::new();
    let mut i: usize = 0;
    while i < pairs.len()
        invariant
            i <= pairs@.len(),
            pairs@.len() == s.len(),
            forall|j: int| 0 <= j < s.len() ==> s[j] == (#[trigger] pairs@[j].0@, pairs@[j].1@),
            crate::table::unique_keys(s),
            items@ == pairs_map(s),
            kept.wf(),
            kept@ == pairs_map(s.subrange(0, i as int)).restrict(readable_keys(schema)),
            forall|j: int| 0 <= j < i ==> !fatal(schema, #[trigger] s[j].0),
            forall|j: int| 0 <= j < dropped@.len() ==> items@.contains_key(#[trigger] dropped@[j]@)
                && !readable(schema, dropped@[j]@),
            (dropped@.len() == 0) == (forall|j: int| 0 <= j < i ==> readable(schema, #[trigger] s[j].0)),
            forall|j: int| 0 <= j < i && !readable(schema, #[trigger] s[j].0) ==> exists|m: int|
                0 <= m < dropped@.len() && (#[trigger] dropped@[m])@ == s[j].0,
        decreases pairs@.len() - i,
    {
        let key = pairs[i].0.as_slice();
        let value = pairs[i].1.as_slice();
        proof {
            assert(s[i as int] == (key@, value@));
            lemma_pairs_map_index(s, i as int);
            let t = s.subrange(0, i + 1);
            assert(t.drop_last() =~= s.subrange(0, i as int));
        }
        if has_kind(&schema.unreadable_kinds, key) {
            if has_kind(&schema.optional_kinds, key) {
                let ghost before = dropped@;
                dropped.push(crate::table::copy_bytes(key));
                proof {
                    assert(dropped@.len() > 0);
                    assert(forall|j: int| 0 <= j < before.len() ==> dropped@[j] == before[j]);
                    assert(dropped@[before.len() as int]@ == s[i as int].0);
                    assert forall|j: int| 0 <= j < i + 1 && !readable(schema, #[trigger] s[j].0) implies exists|m: int|
                        0 <= m < dropped@.len() && (#[trigger] dropped@[m])@ == s[j].0 by {
                        if j < i {
                            let m = choose|m: int| 0 <= m < before.len() && (#[trigger] before[m])@ == s[j].0;
                            assert(dropped@[m] == before[m]);
                        } else {
                            assert(dropped@[before.len() as int]@ == s[j].0);
                        }
                    }
                    assert(kept@ =~= pairs_map(s.subrange(0, i + 1)).restrict(readable_keys(schema)));
                }
            } else {
                assert(items@.contains_key(key@) && fatal(schema, key@));
                return ItemsOutcome::Fatal(crate::table::copy_bytes(key));
            }
        } else {
            kept.put(key, value);
            proof {
                assert forall|j: int| 0 <= j < i + 1 && !readable(schema, #[trigger] s[j].0) implies exists|m: int|
                    0 <= m < dropped@.len() && (#[trigger] dropped@[m])@ == s[j].0 by {
                    if j == i {
                        assert(readable(schema, s[j].0));
                    }
                }
                assert(kept@ =~= pairs_map(s.subrange(0, i + 1)).restrict(readable_keys(schema)));
            }
        }
        i = i + 1;
    }
    proof {
        assert(s.subrange(0, i as int) =~= s);
        assert forall|k: Seq<u8>| items@.contains_key(k) implies !fatal(schema, k)
            && (dropped@.len() == 0 ==> readable(schema, k)) && (!readable(schema, k) ==> exists|m: int|
                0 <= m < dropped@.len() && (#[trigger] dropped@[m])@ == k) by {
            if forall|j: int| 0 <= j < s.len() ==> s[j].0 != k {
                lemma_pairs_map_absent(s, k);
            }
            let j = choose|j: int| 0 <= j < s.len() && s[j].0 == k;
            assert(s[j].0 == k);
        }
    }
    if dropped.len() == 0 {
        proof {
            assert(kept@ =~= items@);
        }
        ItemsOutcome::Complete(kept)
    } else {
        ItemsOutcome::Recovered { kept, dropped }
    }
}

} // verus!
