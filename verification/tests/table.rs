use wrpc_wasmtime::shared::AtCapacity;
use wrpc_wasmtime::SharedResourceTable;

#[test]
fn what_was_inserted_is_found_in_its_scope() {
    let mut table = SharedResourceTable::default();
    assert!(table.is_empty());
    table.try_insert(Some(1), 10, 'a').unwrap();
    table.try_insert(None, 11, 'b').unwrap();
    assert_eq!(table.get(Some(1), &10), Some(&'a'));
    assert_eq!(table.get(Some(2), &10), None);
    assert_eq!(table.get(None, &10), None);
    assert_eq!(table.get(None, &11), Some(&'b'));
    assert_eq!(table.get(Some(1), &11), None);
    assert_eq!(table.len(), 2);
}

#[test]
fn removal_is_bound_to_the_scope() {
    let mut table = SharedResourceTable::default();
    table.try_insert(Some(1), 10, 'a').unwrap();
    assert_eq!(table.remove(Some(2), &10), None);
    assert_eq!(table.remove(None, &10), None);
    assert_eq!(table.len(), 1);
    assert_eq!(table.remove(Some(1), &10), Some('a'));
    assert_eq!(table.remove(Some(1), &10), None);
    assert!(table.is_empty());
}

#[test]
fn a_full_table_refuses_new_handles() {
    let mut table = SharedResourceTable::with_capacity(1);
    table.try_insert(None, 1, 'a').unwrap();
    assert_eq!(
        table.try_insert(None, 2, 'b'),
        Err(AtCapacity { capacity: 1 })
    );
    assert_eq!(table.get(None, &2), None);
    let refused = table.share(None, 'c').unwrap_err();
    assert_eq!(refused.reason, AtCapacity { capacity: 1 });
    assert_eq!((refused.id >> 76) & 0xf, 7);
    assert_eq!(table.get(None, &refused.id), None);
    assert_eq!(table.len(), 1);
    assert_eq!(table.take_minted(), vec![1]);
    table.remove(None, &1).unwrap();
    table.try_insert(None, 2, 'b').unwrap();
    assert_eq!(table.len(), 1);
}

#[test]
fn a_live_handle_takes_a_new_resource_even_when_full() {
    let mut table = SharedResourceTable::with_capacity(1);
    table.try_insert(Some(1), 1, 'a').unwrap();
    table.try_insert(Some(2), 1, 'b').unwrap();
    assert_eq!(table.len(), 1);
    assert_eq!(table.get(Some(1), &1), None);
    assert_eq!(table.get(Some(2), &1), Some(&'b'));
}

#[test]
fn zero_is_no_bound() {
    let mut table = SharedResourceTable::with_capacity(0);
    for i in 0..100u128 {
        table.try_insert(None, i, i).unwrap();
    }
    assert_eq!(table.len(), 100);
}

#[test]
fn minted_handles_are_taken_once() {
    let mut table = SharedResourceTable::default();
    table.try_insert(None, 7, ()).unwrap();
    table.try_insert(Some(3), 5, ()).unwrap();
    table.try_insert(None, 7, ()).unwrap();
    assert_eq!(table.take_minted(), vec![7, 5, 7]);
    assert!(table.take_minted().is_empty());
    assert_eq!(table.len(), 2);
}

#[test]
fn shared_resources_get_handles_of_version_seven() {
    let mut table = SharedResourceTable::default();
    let a = table.share(Some(4), 'a').unwrap();
    let b = table.share(Some(4), 'b').unwrap();
    assert_ne!(a, b);
    assert_eq!((a >> 76) & 0xf, 7);
    assert_eq!((a >> 62) & 0x3, 2);
    assert_eq!(table.get(Some(4), &a), Some(&'a'));
    assert_eq!(table.get(Some(4), &b), Some(&'b'));
    assert_eq!(table.get(None, &a), None);
    assert_eq!(table.take_minted(), vec![a, b]);
}
