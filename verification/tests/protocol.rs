use sonic_gateway::engine::EngineOp;
use sonic_gateway::fault::Fault;
use sonic_gateway::index::{
    drop_items, plan_deindex, plan_index, projections, retractions, store_items,
};
use sonic_gateway::item::{Field, Item};
use sonic_gateway::query::resolve_hits;
use sonic_gateway::store::ItemStore;

const A: u128 = 0x0a0a0a0a_0000_4000_8000_00000000000a;
const B: u128 = 0x0b0b0b0b_0000_4000_8000_00000000000b;

/// An engine that keeps what it is pushed, in the order of arrival, and
/// answers with the objects whose text holds the term.
struct Engine {
    held: Vec<(String, String, String, String)>,
}

impl Engine {
    fn new() -> Engine {
        Engine { held: Vec::new() }
    }

    fn take(&mut self, ops: &[EngineOp]) {
        for op in ops {
            match op {
                EngineOp::Push { collection, bucket, object, text, .. } => {
                    self.held.push((
                        collection.clone(),
                        bucket.clone(),
                        object.clone(),
                        text.clone(),
                    ));
                }
                EngineOp::Flush { collection, bucket, object } => {
                    self.held.retain(|(c, b, o, _)| !(c == collection && b == bucket && o == object));
                }
            }
        }
    }

    fn query(&self, collection: &str, bucket: &str, term: &str) -> Vec<String> {
        let mut hits = Vec::new();
        for (c, b, o, text) in &self.held {
            if c == collection && b == bucket && text.contains(term) {
                hits.push(o.clone());
            }
        }
        hits
    }
}

fn json_text(value: &str) -> String {
    serde_json::Value::String(value.to_string()).to_string()
}

fn item(id: u128, fields: &[(&str, &str)], indexes: &[&str]) -> Item {
    Item {
        id,
        collection: "c".to_string(),
        bucket: "b".to_string(),
        data: fields
            .iter()
            .map(|(name, value)| Field { name: name.to_string(), value: json_text(value) })
            .collect(),
        indexes: indexes.iter().map(|name| name.to_string()).collect(),
        locale: None,
    }
}

fn index(engine: &mut Engine, store: &mut ItemStore, items: Vec<Item>) {
    let ops = plan_index(store, &items);
    engine.take(&ops);
    store_items(store, items);
}

fn deindex(engine: &mut Engine, store: &mut ItemStore, ids: Vec<u128>) {
    let ops = plan_deindex(store, &ids);
    engine.take(&ops);
    drop_items(store, &ids);
}

fn search(engine: &Engine, store: &ItemStore, term: &str) -> Vec<u128> {
    let hits = engine.query("c", "b", term);
    let items = resolve_hits(store, &hits).expect("the engine names objects of items only");
    items.iter().map(|found| found.id).collect()
}

#[test]
fn index_reindex_deindex_scenario() {
    let mut engine = Engine::new();
    let mut store = ItemStore::new();

    index(&mut engine, &mut store, vec![item(A, &[("title", "red car")], &["title"])]);
    assert_eq!(search(&engine, &store, "red"), vec![A]);

    index(&mut engine, &mut store, vec![item(A, &[("title", "blue car")], &["title"])]);
    assert_eq!(search(&engine, &store, "red"), Vec::<u128>::new());
    assert_eq!(search(&engine, &store, "blue"), vec![A]);

    deindex(&mut engine, &mut store, vec![A]);
    assert_eq!(search(&engine, &store, "blue"), Vec::<u128>::new());
    assert!(engine.held.is_empty());
    assert_eq!(store.len(), 0);
}

#[test]
fn two_items_share_a_value_each_given_once() {
    let mut engine = Engine::new();
    let mut store = ItemStore::new();
    let first = item(B, &[("title", "red car"), ("note", "a red one")], &["title", "note"]);
    let second = item(A, &[("title", "red bike")], &["title"]);
    index(&mut engine, &mut store, vec![first, second]);

    assert_eq!(engine.query("c", "b", "red").len(), 3);
    assert_eq!(search(&engine, &store, "red"), vec![B, A]);
}

#[test]
fn indexed_then_deindexed_is_unreachable() {
    let mut engine = Engine::new();
    let mut store = ItemStore::new();
    index(&mut engine, &mut store, vec![item(A, &[("title", "red car")], &["title"])]);
    deindex(&mut engine, &mut store, vec![A]);
    assert_eq!(engine.query("c", "b", "red"), Vec::<String>::new());
    assert_eq!(engine.query("c", "b", "car"), Vec::<String>::new());
    assert!(!store.contains(A));
    // Even a hit that the engine should still give finds no record.
    let stale = vec![format!("{}_title", uuid::Uuid::from_u128(A))];
    assert_eq!(resolve_hits(&store, &stale), Ok(vec![]));
}

#[test]
fn reindex_leaves_no_stale_hit() {
    let mut engine = Engine::new();
    let mut store = ItemStore::new();
    index(
        &mut engine,
        &mut store,
        vec![item(A, &[("title", "red car"), ("note", "old")], &["title", "note"])],
    );
    index(&mut engine, &mut store, vec![item(A, &[("title", "blue car")], &["title"])]);
    assert_eq!(engine.held.len(), 1);
    assert_eq!(engine.held[0].3, "\"blue car\"");
    assert_eq!(search(&engine, &store, "old"), Vec::<u128>::new());
    assert_eq!(search(&engine, &store, "blue"), vec![A]);
}

#[test]
fn declared_field_without_value_is_skipped() {
    let it = item(A, &[("title", "red car")], &["title", "missing"]);
    let ops = projections(&it);
    assert_eq!(
        ops,
        vec![EngineOp::Push {
            collection: "c".to_string(),
            bucket: "b".to_string(),
            object: "0a0a0a0a-0000-4000-8000-00000000000a_title".to_string(),
            text: "\"red car\"".to_string(),
            lang: None,
        }]
    );
}

#[test]
fn item_without_index_fields_is_stored_not_searchable() {
    let mut engine = Engine::new();
    let mut store = ItemStore::new();
    index(&mut engine, &mut store, vec![item(A, &[("title", "red car")], &[])]);
    assert!(engine.held.is_empty());
    assert!(store.contains(A));
    assert_eq!(search(&engine, &store, "red"), Vec::<u128>::new());
}

#[test]
fn retractions_flush_every_index_field() {
    let it = item(A, &[("title", "red car")], &["title", "missing"]);
    assert_eq!(
        retractions(&it),
        vec![
            EngineOp::Flush {
                collection: "c".to_string(),
                bucket: "b".to_string(),
                object: "0a0a0a0a-0000-4000-8000-00000000000a_title".to_string(),
            },
            EngineOp::Flush {
                collection: "c".to_string(),
                bucket: "b".to_string(),
                object: "0a0a0a0a-0000-4000-8000-00000000000a_missing".to_string(),
            },
        ]
    );
}

#[test]
fn deindex_of_unknown_id_changes_nothing() {
    let mut engine = Engine::new();
    let mut store = ItemStore::new();
    index(&mut engine, &mut store, vec![item(A, &[("title", "red car")], &["title"])]);
    assert_eq!(plan_deindex(&store, &vec![B]), Vec::<EngineOp>::new());
    deindex(&mut engine, &mut store, vec![B]);
    assert_eq!(store.len(), 1);
    assert_eq!(search(&engine, &store, "red"), vec![A]);
}

#[test]
fn deindex_of_item_without_index_fields_asks_nothing() {
    let mut store = ItemStore::new();
    store.put(item(A, &[("title", "red car")], &[]));
    assert_eq!(plan_deindex(&store, &vec![A]), Vec::<EngineOp>::new());
    drop_items(&mut store, &vec![A]);
    assert!(!store.contains(A));
}

#[test]
fn plan_index_retracts_the_stored_record_first() {
    let mut store = ItemStore::new();
    store.put(item(A, &[("title", "red car")], &["title"]));
    let ops = plan_index(&store, &vec![item(A, &[("name", "blue")], &["name"])]);
    assert_eq!(
        ops,
        vec![
            EngineOp::Flush {
                collection: "c".to_string(),
                bucket: "b".to_string(),
                object: "0a0a0a0a-0000-4000-8000-00000000000a_title".to_string(),
            },
            EngineOp::Push {
                collection: "c".to_string(),
                bucket: "b".to_string(),
                object: "0a0a0a0a-0000-4000-8000-00000000000a_name".to_string(),
                text: "\"blue\"".to_string(),
                lang: None,
            },
        ]
    );
    // Planning writes nothing.
    assert_eq!(store.get(A).map(|found| found.indexes.clone()), Some(vec!["title".to_string()]));
}

#[test]
fn locale_becomes_the_language_of_each_push() {
    let mut it = item(A, &[("title", "red car")], &["title"]);
    it.locale = Some("ENG".to_string());
    match &projections(&it)[0] {
        EngineOp::Push { lang, .. } => assert_eq!(lang, &Some("eng".to_string())),
        other => panic!("a push was expected, not {:?}", other),
    }
    it.locale = Some("no such language".to_string());
    match &projections(&it)[0] {
        EngineOp::Push { lang, .. } => assert_eq!(lang, &None),
        other => panic!("a push was expected, not {:?}", other),
    }
}

#[test]
fn hit_that_names_no_item_is_a_fault_of_the_engine() {
    let store = ItemStore::new();
    let hits = vec!["not an identifier_title".to_string()];
    assert_eq!(resolve_hits(&store, &hits), Err(Fault::EngineFault));
}
