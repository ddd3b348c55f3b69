use sonic_gateway::fault::Fault;
use sonic_gateway::item::{Field, IndexForm, Item};
use sonic_gateway::store::ItemStore;

fn item(id: u128, title: &str) -> Item {
    Item {
        id,
        collection: "c".to_string(),
        bucket: "b".to_string(),
        data: vec![Field { name: "title".to_string(), value: format!("\"{}\"", title) }],
        indexes: vec!["title".to_string()],
        locale: None,
    }
}

#[test]
fn new_store_is_empty() {
    let store = ItemStore::new();
    assert_eq!(store.len(), 0);
    assert_eq!(store.get(1), None);
    assert!(!store.contains(1));
    assert_eq!(store.scan_all(), Vec::<Item>::new());
}

#[test]
fn put_then_get_gives_the_record() {
    let mut store = ItemStore::new();
    store.put(item(7, "seven"));
    assert_eq!(store.get(7), Some(&item(7, "seven")));
    assert_eq!(store.get(8), None);
    assert!(store.contains(7));
    assert_eq!(store.len(), 1);
}

#[test]
fn put_replaces_the_record_of_the_same_id() {
    let mut store = ItemStore::new();
    store.put(item(7, "old"));
    store.put(item(3, "three"));
    store.put(item(7, "new"));
    assert_eq!(store.len(), 2);
    assert_eq!(store.get(7), Some(&item(7, "new")));
    assert_eq!(store.get(3), Some(&item(3, "three")));
}

#[test]
fn delete_removes_and_is_a_noop_on_an_absent_id() {
    let mut store = ItemStore::new();
    store.put(item(7, "seven"));
    store.put(item(3, "three"));
    store.delete(5);
    assert_eq!(store.len(), 2);
    store.delete(7);
    assert_eq!(store.get(7), None);
    assert_eq!(store.scan_all(), vec![item(3, "three")]);
    store.delete(7);
    assert_eq!(store.len(), 1);
}

#[test]
fn scan_meets_the_records_in_ascending_order() {
    let mut store = ItemStore::new();
    for id in [9u128, 2, u128::MAX, 0, 5, 1 << 100] {
        store.put(item(id, "x"));
    }
    let ids: Vec<u128> = store.scan_all().iter().map(|found| found.id).collect();
    assert_eq!(ids, vec![0, 2, 5, 9, 1 << 100, u128::MAX]);
    for id in [9u128, 2, u128::MAX, 0, 5, 1 << 100] {
        assert!(store.contains(id));
    }
    assert!(!store.contains(3));
}

#[test]
fn scan_is_a_snapshot() {
    let mut store = ItemStore::new();
    store.put(item(1, "one"));
    let before = store.scan_all();
    store.put(item(2, "two"));
    store.delete(1);
    assert_eq!(before, vec![item(1, "one")]);
}

#[test]
fn store_is_loaded_from_what_was_read() {
    let records = vec![Some(item(4, "four")), Some(item(1, "old")), Some(item(1, "new"))];
    let store = ItemStore::from_records(records).expect("all records were read");
    assert_eq!(store.scan_all(), vec![item(1, "new"), item(4, "four")]);
    let empty = ItemStore::from_records(Vec::new()).expect("nothing to read");
    assert_eq!(empty.len(), 0);
}

#[test]
fn undecodable_record_is_a_fault_of_the_store() {
    let records = vec![Some(item(4, "four")), None, Some(item(1, "one"))];
    assert_eq!(ItemStore::from_records(records).err(), Some(Fault::StoreFault));
    assert_eq!(ItemStore::from_records(vec![None]).err(), Some(Fault::StoreFault));
}

#[test]
fn value_of_finds_the_first_field_of_that_name() {
    let mut it = item(1, "one");
    it.data.push(Field { name: "note".to_string(), value: "1".to_string() });
    it.data.push(Field { name: "title".to_string(), value: "\"later\"".to_string() });
    assert_eq!(it.value_of("title"), Some(&"\"one\"".to_string()));
    assert_eq!(it.value_of("note"), Some(&"1".to_string()));
    assert_eq!(it.value_of("Title"), None);
    assert_eq!(it.value_of(""), None);
}

#[test]
fn duplicate_holds_the_same() {
    let mut it = item(1, "one");
    it.locale = Some("eng".to_string());
    assert_eq!(it.duplicate(), it);
}

#[test]
fn item_needs_collection_and_bucket() {
    let mut it = item(1, "one");
    assert!(it.is_well_formed());
    it.bucket = String::new();
    assert!(!it.is_well_formed());
    it.bucket = "b".to_string();
    it.collection = String::new();
    assert!(!it.is_well_formed());
}

#[test]
fn form_with_an_item_without_namespace_is_a_bad_request() {
    let good = IndexForm { items: vec![item(1, "one"), item(2, "two")] };
    assert_eq!(good.validate(), Ok(()));
    let mut broken = item(3, "three");
    broken.collection = String::new();
    let bad = IndexForm { items: vec![item(1, "one"), broken] };
    assert_eq!(bad.validate(), Err(Fault::BadRequest));
    assert_eq!(IndexForm { items: Vec::new() }.validate(), Ok(()));
}
