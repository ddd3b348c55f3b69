use sonic_gateway::fault::Fault;
use sonic_gateway::ident::object_id;
use sonic_gateway::item::{Field, Item, SearchForm, SuggestForm};
use sonic_gateway::query::{
    decode_hits, dedup_first, hydrate, resolve_hits, search_query, suggest_query, EngineQuery,
    EngineSuggest,
};
use sonic_gateway::store::ItemStore;

fn item(id: u128) -> Item {
    Item {
        id,
        collection: "c".to_string(),
        bucket: "b".to_string(),
        data: vec![Field { name: "title".to_string(), value: "\"t\"".to_string() }],
        indexes: vec!["title".to_string()],
        locale: None,
    }
}

fn store_of(ids: &[u128]) -> ItemStore {
    let mut store = ItemStore::new();
    for id in ids {
        store.put(item(*id));
    }
    store
}

fn ids_of(items: &[Item]) -> Vec<u128> {
    items.iter().map(|found| found.id).collect()
}

#[test]
fn dedup_keeps_the_first_occurrence() {
    assert_eq!(dedup_first(&vec![5, 7, 5, 9, 7, 5]), vec![5, 7, 9]);
    assert_eq!(dedup_first(&vec![3, 3, 3]), vec![3]);
    assert_eq!(dedup_first(&vec![1, 2, 3]), vec![1, 2, 3]);
    assert_eq!(dedup_first(&Vec::new()), Vec::<u128>::new());
}

#[test]
fn hydration_keeps_the_rank_of_the_engine() {
    let store = store_of(&[1, 2, 3, 4]);
    assert_eq!(ids_of(&hydrate(&store, &vec![4, 1, 3])), vec![4, 1, 3]);
    assert_eq!(ids_of(&hydrate(&store, &vec![3, 4, 3, 1, 4])), vec![3, 4, 1]);
}

#[test]
fn hydration_drops_a_miss_silently() {
    let store = store_of(&[1, 3]);
    assert_eq!(ids_of(&hydrate(&store, &vec![2, 3, 9, 1, 2])), vec![3, 1]);
    assert_eq!(hydrate(&store, &vec![2, 9]), Vec::<Item>::new());
    assert_eq!(hydrate(&ItemStore::new(), &vec![1]), Vec::<Item>::new());
}

#[test]
fn hydration_gives_the_whole_record() {
    let store = store_of(&[1]);
    assert_eq!(hydrate(&store, &vec![1]), vec![item(1)]);
}

#[test]
fn hits_are_decoded_one_by_one() {
    let hits = vec![object_id(7, "title"), object_id(3, "note"), object_id(7, "note")];
    assert_eq!(decode_hits(&hits), Ok(vec![7, 3, 7]));
    assert_eq!(decode_hits(&Vec::new()), Ok(Vec::new()));
}

#[test]
fn one_undecodable_hit_fails_the_answer() {
    let hits = vec![object_id(7, "title"), "oops".to_string()];
    assert_eq!(decode_hits(&hits), Err(Fault::EngineFault));
    assert_eq!(resolve_hits(&store_of(&[7]), &hits), Err(Fault::EngineFault));
}

#[test]
fn item_matched_through_two_fields_is_given_once() {
    let store = store_of(&[7, 3]);
    let hits = vec![object_id(7, "title"), object_id(3, "title"), object_id(7, "note")];
    let items = resolve_hits(&store, &hits).expect("hits of items");
    assert_eq!(ids_of(&items), vec![7, 3]);
}

#[test]
fn search_query_passes_the_form_on() {
    let form = SearchForm {
        query: "red car".to_string(),
        collection: "c".to_string(),
        bucket: "b".to_string(),
        limit: Some(5),
        offset: None,
    };
    assert_eq!(
        search_query(&form),
        EngineQuery {
            collection: "c".to_string(),
            bucket: "b".to_string(),
            terms: "red car".to_string(),
            limit: Some(5),
            offset: None,
        }
    );
    let other = SearchForm { limit: None, offset: Some(20), ..form };
    let query = search_query(&other);
    assert_eq!(query.limit, None);
    assert_eq!(query.offset, Some(20));
}

#[test]
fn suggest_query_passes_the_form_on() {
    let form = SuggestForm {
        query: "re".to_string(),
        collection: "c".to_string(),
        bucket: "b".to_string(),
        limit: None,
    };
    assert_eq!(
        suggest_query(&form),
        EngineSuggest {
            collection: "c".to_string(),
            bucket: "b".to_string(),
            word: "re".to_string(),
            limit: None,
        }
    );
}
