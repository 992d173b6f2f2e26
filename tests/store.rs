use backing_storage::items::{resolve_items, ItemSchema, ItemsOutcome};
use backing_storage::keys::{as_u32, IntKey, KeyError};
use backing_storage::store::{DataUpdate, SnapshotError, TableId, TaskStore};
use backing_storage::table::Table;
use backing_storage::{ext_key, table};

fn schema() -> ItemSchema {
    ItemSchema { optional_kinds: vec![], unreadable_kinds: vec![] }
}

fn set(task: u32, key: &[u8], value: &[u8]) -> DataUpdate {
    DataUpdate { task, key: key.to_vec(), value: Some(value.to_vec()) }
}

fn unset(task: u32, key: &[u8]) -> DataUpdate {
    DataUpdate { task, key: key.to_vec(), value: None }
}

fn sorted(mut v: Vec<(Vec<u8>, Vec<u8>)>) -> Vec<(Vec<u8>, Vec<u8>)> {
    v.sort();
    v
}

fn long_key(len: usize, last: u8) -> Vec<u8> {
    let mut k: Vec<u8> = (0..len).map(|i| (i % 251) as u8).collect();
    k[len - 1] = last;
    k
}

#[test]
fn int_key_is_big_endian() {
    assert_eq!(IntKey::new(1).as_bytes(), &[0, 0, 0, 1]);
    assert_eq!(IntKey::new(0x0102_0304).to_vec(), vec![1, 2, 3, 4]);
    assert_eq!(IntKey::new(u32::MAX).to_vec(), vec![255, 255, 255, 255]);
}

#[test]
fn int_key_order_is_numeric_order() {
    assert!(IntKey::new(255).to_vec() < IntKey::new(256).to_vec());
    assert!(IntKey::new(1).to_vec() < IntKey::new(0x0100_0000).to_vec());
}

#[test]
fn as_u32_reads_four_bytes() {
    assert_eq!(as_u32(&[0, 0, 1, 0]), Ok(256));
    assert_eq!(as_u32(IntKey::new(123_456).as_bytes()), Ok(123_456));
    assert_eq!(as_u32(&[0, 0, 1]), Err(KeyError::WrongLength));
    assert_eq!(as_u32(&[0, 0, 0, 0, 1]), Err(KeyError::WrongLength));
    assert_eq!(as_u32(&[]), Err(KeyError::WrongLength));
}

#[test]
fn table_put_get_remove() {
    let mut t = Table::new();
    assert_eq!(t.get(b"a"), None);
    t.put(b"a", b"1");
    t.put(b"b", b"2");
    t.put(b"a", b"3");
    assert_eq!(t.get(b"a"), Some(b"3".to_vec()));
    assert_eq!(t.to_pairs().len(), 2);
    t.remove(b"a");
    assert_eq!(t.get(b"a"), None);
    assert_eq!(t.get(b"b"), Some(b"2".to_vec()));
    assert!(table::bytes_eq(b"xy", b"xy"));
    assert!(!table::bytes_eq(b"xy", b"xz"));
}

#[test]
fn fresh_store_is_empty() {
    let s = TaskStore::new();
    assert_eq!(s.next_free_task_id(), 1);
    assert!(s.uncompleted_operations().is_empty());
    assert!(s.lookup_data(7).is_empty());
    assert_eq!(s.forward_lookup_task_cache(b"anything"), None);
    assert_eq!(s.reverse_lookup_task_cache(1), None);
}

#[test]
fn registrations_are_found_both_ways() {
    let mut s = TaskStore::new();
    let short = b"short type".to_vec();
    let long = long_key(5000, 1);
    s.save_snapshot(&vec![], &vec![(short.clone(), 3), (long.clone(), 9)], &vec![], &schema()).unwrap();
    assert_eq!(s.forward_lookup_task_cache(&short), Some(3));
    assert_eq!(s.forward_lookup_task_cache(&long), Some(9));
    assert_eq!(s.reverse_lookup_task_cache(3), Some(short));
    assert_eq!(s.reverse_lookup_task_cache(9), Some(long));
    assert_eq!(s.reverse_lookup_task_cache(4), None);
    assert_eq!(s.next_free_task_id(), 10);
}

#[test]
fn long_keys_sharing_a_prefix_do_not_collide() {
    let mut s = TaskStore::new();
    let a = long_key(5000, 1);
    let b = long_key(5000, 2);
    let c = long_key(600, 3);
    let d = long_key(511, 4);
    s.save_snapshot(&vec![], &vec![(a.clone(), 1), (b.clone(), 2)], &vec![], &schema()).unwrap();
    s.save_snapshot(&vec![], &vec![(c.clone(), 3), (d.clone(), 4)], &vec![], &schema()).unwrap();
    assert_eq!(s.forward_lookup_task_cache(&a), Some(1));
    assert_eq!(s.forward_lookup_task_cache(&b), Some(2));
    assert_eq!(s.forward_lookup_task_cache(&c), Some(3));
    assert_eq!(s.forward_lookup_task_cache(&d), Some(4));
    assert_eq!(s.forward_lookup_task_cache(&long_key(5000, 5)), None);
    assert_eq!(s.forward_lookup_task_cache(&a[..4999]), None);
}

#[test]
fn extended_key_put_and_get() {
    let mut t = Table::new();
    let long = long_key(1000, 9);
    ext_key::put(&mut t, &long, b"v1");
    ext_key::put(&mut t, b"k", b"v2");
    ext_key::put(&mut t, &long, b"v3");
    assert_eq!(ext_key::get(&t, &long), Some(b"v3".to_vec()));
    assert_eq!(ext_key::get(&t, b"k"), Some(b"v2".to_vec()));
    assert_eq!(ext_key::get(&t, &long_key(1000, 8)), None);
    // the long key lives in a bucket, not under its own bytes
    assert_eq!(t.get(&long), None);
    assert!(t.get(&long[..ext_key::MAX_KEY_LEN]).is_some());
}

#[test]
fn next_free_id_is_monotonic() {
    let mut s = TaskStore::new();
    s.save_snapshot(&vec![], &vec![(b"t1".to_vec(), 41)], &vec![], &schema()).unwrap();
    assert_eq!(s.next_free_task_id(), 42);
    s.save_snapshot(&vec![], &vec![(b"t2".to_vec(), 5)], &vec![], &schema()).unwrap();
    assert_eq!(s.next_free_task_id(), 42);
    s.save_snapshot(&vec![], &vec![], &vec![], &schema()).unwrap();
    assert_eq!(s.next_free_task_id(), 42);
}

#[test]
fn operations_journal_is_replaced() {
    let mut s = TaskStore::new();
    s.save_snapshot(&vec![b"op1".to_vec(), b"op2".to_vec()], &vec![], &vec![], &schema()).unwrap();
    assert_eq!(s.uncompleted_operations(), vec![b"op1".to_vec(), b"op2".to_vec()]);
    s.save_snapshot(&vec![b"op3".to_vec()], &vec![], &vec![], &schema()).unwrap();
    assert_eq!(s.uncompleted_operations(), vec![b"op3".to_vec()]);
    s.save_snapshot(&vec![], &vec![], &vec![], &schema()).unwrap();
    assert!(s.uncompleted_operations().is_empty());
}

#[test]
fn data_round_trip_last_write_wins() {
    let mut s = TaskStore::new();
    let ups = vec![set(1, b"a", b"1"), set(1, b"b", b"2"), set(2, b"a", b"x"), set(1, b"a", b"3")];
    s.save_snapshot(&vec![], &vec![], &ups, &schema()).unwrap();
    assert_eq!(
        sorted(s.lookup_data(1)),
        vec![(b"a".to_vec(), b"3".to_vec()), (b"b".to_vec(), b"2".to_vec())]
    );
    assert_eq!(s.lookup_data(2), vec![(b"a".to_vec(), b"x".to_vec())]);
    let ups = vec![unset(1, b"b"), set(1, b"c", b"4"), unset(1, b"missing")];
    s.save_snapshot(&vec![], &vec![], &ups, &schema()).unwrap();
    assert_eq!(
        sorted(s.lookup_data(1)),
        vec![(b"a".to_vec(), b"3".to_vec()), (b"c".to_vec(), b"4".to_vec())]
    );
    assert_eq!(s.lookup_data(2), vec![(b"a".to_vec(), b"x".to_vec())]);
    s.save_snapshot(&vec![], &vec![], &vec![unset(2, b"a")], &schema()).unwrap();
    assert!(s.lookup_data(2).is_empty());
    assert!(s.lookup_data(3).is_empty());
}

#[test]
fn failed_snapshot_leaves_nothing_behind() {
    let mut s = TaskStore::new();
    s.save_snapshot(&vec![b"op".to_vec()], &vec![(b"t".to_vec(), 2)], &vec![set(2, b"a", b"1")], &schema())
        .unwrap();
    let r = s.save_snapshot(
        &vec![b"other".to_vec()],
        &vec![(b"u".to_vec(), 7), (b"v".to_vec(), u32::MAX)],
        &vec![set(2, b"a", b"9"), set(8, b"b", b"1")],
        &schema(),
    );
    assert!(matches!(r, Err(SnapshotError::IdExhausted)));
    assert_eq!(s.uncompleted_operations(), vec![b"op".to_vec()]);
    assert_eq!(s.forward_lookup_task_cache(b"u"), None);
    assert_eq!(s.reverse_lookup_task_cache(7), None);
    assert_eq!(s.next_free_task_id(), 3);
    assert_eq!(s.lookup_data(2), vec![(b"a".to_vec(), b"1".to_vec())]);
    assert!(s.lookup_data(8).is_empty());
}

#[test]
fn optional_unreadable_item_is_dropped() {
    let mut s = TaskStore::new();
    s.save_snapshot(&vec![], &vec![], &vec![set(1, b"\x07old", b"v"), set(1, b"\x01keep", b"w")], &schema())
        .unwrap();
    let changed = ItemSchema { optional_kinds: vec![7], unreadable_kinds: vec![7] };
    s.save_snapshot(&vec![], &vec![], &vec![set(1, b"\x01new", b"n")], &changed).unwrap();
    assert_eq!(
        sorted(s.lookup_data(1)),
        vec![(b"\x01keep".to_vec(), b"w".to_vec()), (b"\x01new".to_vec(), b"n".to_vec())]
    );
}

#[test]
fn required_unreadable_item_fails_the_snapshot() {
    let mut s = TaskStore::new();
    s.save_snapshot(&vec![], &vec![], &vec![set(1, b"\x05req", b"v")], &schema()).unwrap();
    let changed = ItemSchema { optional_kinds: vec![7], unreadable_kinds: vec![5] };
    let r = s.save_snapshot(&vec![b"op".to_vec()], &vec![], &vec![set(1, b"\x01x", b"n"), set(2, b"\x01y", b"m")], &changed);
    match r {
        Err(SnapshotError::RequiredItem { task, key }) => {
            assert_eq!(task, 1);
            assert_eq!(key, b"\x05req".to_vec());
        }
        _ => panic!("expected a required item error"),
    }
    assert_eq!(s.lookup_data(1), vec![(b"\x05req".to_vec(), b"v".to_vec())]);
    assert!(s.lookup_data(2).is_empty());
    assert!(s.uncompleted_operations().is_empty());
}

#[test]
fn resolve_items_outcomes() {
    let mut t = Table::new();
    t.put(b"\x01a", b"1");
    t.put(b"\x02b", b"2");
    let all = ItemSchema { optional_kinds: vec![], unreadable_kinds: vec![] };
    assert!(matches!(resolve_items(&all, &t), ItemsOutcome::Complete(_)));
    let drop = ItemSchema { optional_kinds: vec![2], unreadable_kinds: vec![2] };
    match resolve_items(&drop, &t) {
        ItemsOutcome::Recovered { kept, dropped } => {
            assert_eq!(dropped, vec![b"\x02b".to_vec()]);
            assert_eq!(kept.to_pairs(), vec![(b"\x01a".to_vec(), b"1".to_vec())]);
        }
        _ => panic!("expected recovered items"),
    }
    let fail = ItemSchema { optional_kinds: vec![], unreadable_kinds: vec![1] };
    match resolve_items(&fail, &t) {
        ItemsOutcome::Fatal(k) => assert_eq!(k, b"\x01a".to_vec()),
        _ => panic!("expected a fatal item"),
    }
}

#[test]
fn store_reloads_from_its_entries() {
    let mut s = TaskStore::new();
    let long = long_key(3000, 1);
    s.save_snapshot(&vec![b"op".to_vec()], &vec![(long.clone(), 4)], &vec![set(4, b"k", b"v")], &schema()).unwrap();
    let mut data = s.entries(TableId::Data);
    data.push((IntKey::new(9).to_vec(), b"not an encoding".to_vec()));
    let r = TaskStore::from_entries(
        &s.entries(TableId::Meta),
        &data,
        &s.entries(TableId::Forward),
        &s.entries(TableId::Reverse),
    );
    assert_eq!(r.forward_lookup_task_cache(&long), Some(4));
    assert_eq!(r.reverse_lookup_task_cache(4), Some(long));
    assert_eq!(r.lookup_data(4), vec![(b"k".to_vec(), b"v".to_vec())]);
    assert!(r.lookup_data(9).is_empty());
    assert_eq!(r.uncompleted_operations(), vec![b"op".to_vec()]);
    assert_eq!(r.next_free_task_id(), 5);
}

#[test]
fn id_zero_is_reserved() {
    let mut s = TaskStore::new();
    let r = s.save_snapshot(&vec![b"op".to_vec()], &vec![(b"t".to_vec(), 0)], &vec![set(1, b"a", b"1")], &schema());
    assert!(matches!(r, Err(SnapshotError::ReservedId)));
    assert_eq!(s.forward_lookup_task_cache(b"t"), None);
    assert!(s.uncompleted_operations().is_empty());
    assert!(s.lookup_data(1).is_empty());
    assert_eq!(s.next_free_task_id(), 1);
}

#[test]
fn repeated_updates_to_one_key_leave_the_last() {
    let mut s = TaskStore::new();
    let ups = vec![set(3, b"k", b"1"), set(3, b"k", b"2"), set(3, b"other", b"o"), set(3, b"k", b"3")];
    s.save_snapshot(&vec![], &vec![], &ups, &schema()).unwrap();
    let ups = vec![set(3, b"k", b"4"), unset(3, b"k")];
    s.save_snapshot(&vec![], &vec![], &ups, &schema()).unwrap();
    assert_eq!(s.lookup_data(3), vec![(b"other".to_vec(), b"o".to_vec())]);
}

#[test]
fn identical_snapshot_twice_changes_no_lookup() {
    let mut s = TaskStore::new();
    let ops = vec![b"op".to_vec()];
    let regs = vec![(b"t".to_vec(), 6), (long_key(900, 2), 8)];
    let ups = vec![set(6, b"a", b"1"), set(6, b"b", b"2"), unset(6, b"a")];
    s.save_snapshot(&ops, &regs, &ups, &schema()).unwrap();
    let data = s.lookup_data(6);
    s.save_snapshot(&ops, &regs, &ups, &schema()).unwrap();
    assert_eq!(s.lookup_data(6), data);
    assert_eq!(s.uncompleted_operations(), ops);
    assert_eq!(s.next_free_task_id(), 9);
    assert_eq!(s.forward_lookup_task_cache(&long_key(900, 2)), Some(8));
    assert_eq!(s.reverse_lookup_task_cache(6), Some(b"t".to_vec()));
}

#[test]
fn undecodable_journal_reads_as_empty() {
    let meta = vec![(IntKey::new(0).to_vec(), vec![1, 2, 3])];
    let s = TaskStore::from_entries(&meta, &vec![], &vec![], &vec![]);
    assert!(s.uncompleted_operations().is_empty());
    assert_eq!(s.next_free_task_id(), 1);
}

#[test]
fn reload_keeps_every_decodable_bucket() {
    let mut s = TaskStore::new();
    let a = long_key(2000, 1);
    let b = long_key(2000, 2);
    s.save_snapshot(&vec![], &vec![(a.clone(), 1), (b.clone(), 2)], &vec![], &schema()).unwrap();
    let r = TaskStore::from_entries(
        &s.entries(TableId::Meta),
        &s.entries(TableId::Data),
        &s.entries(TableId::Forward),
        &s.entries(TableId::Reverse),
    );
    assert_eq!(r.forward_lookup_task_cache(&a), Some(1));
    assert_eq!(r.forward_lookup_task_cache(&b), Some(2));
    assert_eq!(r.next_free_task_id(), 3);
}
