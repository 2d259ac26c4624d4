//! Passes over documents that are held in memory, with plain routines in
//! place of a document format.

use head_empty::{
    deserialize, deserialize_entries, init, store_get, Document, DocumentError, Engine,
    Registration, Registry, Singleton, Step, Store,
};
use std::any::TypeId;

type Routine = fn(&'static str) -> Result<i64, String>;
type Record = Registration<Routine>;

fn number(text: &'static str) -> Result<i64, String> {
    text.parse::<i64>().map_err(|_| format!("no number: {}", text))
}

fn length(text: &'static str) -> Result<i64, String> {
    Ok(text.len() as i64)
}

fn records() -> [Record; 3] {
    [
        Registration { field: "port", type_id: TypeId::of::<u16>(), deserialize: number },
        Registration { field: "host", type_id: TypeId::of::<String>(), deserialize: length },
        Registration { field: "retries", type_id: TypeId::of::<u8>(), deserialize: number },
    ]
}

fn document(entries: &[(&str, &'static str)]) -> Document<&'static str> {
    Document::Entries(entries.iter().map(|(key, value)| (key.to_string(), *value)).collect())
}

fn run(entries: &[(&str, &'static str)]) -> Result<Store<i64>, DocumentError<String>> {
    let records = records();
    let registry = Registry::new(&records).ok().unwrap();
    deserialize(&registry, document(entries))
}

fn failure(entries: &[(&str, &'static str)]) -> DocumentError<String> {
    run(entries).err().unwrap()
}

#[test]
fn complete_document_fills_every_field() {
    let store = run(&[("host", "localhost"), ("retries", "3"), ("port", "8080")]).ok().unwrap();
    assert_eq!(store.len(), 3);
    assert_eq!(store_get(&store, "port", TypeId::of::<u16>()), Some(&8080));
    assert_eq!(store_get(&store, "host", TypeId::of::<String>()), Some(&9));
    assert_eq!(store_get(&store, "retries", TypeId::of::<u8>()), Some(&3));
}

#[test]
fn entry_carries_the_declared_identity() {
    let store = run(&[("port", "1"), ("host", ""), ("retries", "-2")]).ok().unwrap();
    assert_eq!(store.get("port").unwrap().type_id, TypeId::of::<u16>());
    assert_eq!(store.get("retries").unwrap().type_id, TypeId::of::<u8>());
    assert_eq!(store.get("retries").unwrap().value, -2);
    assert_eq!(store_get(&store, "port", TypeId::of::<u8>()), None);
}

#[test]
fn lacking_field_fails_the_document() {
    assert_eq!(
        failure(&[("port", "8080"), ("retries", "3")]),
        DocumentError::MissingField("host")
    );
}

#[test]
fn earliest_lacking_field_is_named() {
    assert_eq!(failure(&[("retries", "3")]), DocumentError::MissingField("port"));
    assert_eq!(failure(&[("port", "3")]), DocumentError::MissingField("host"));
    assert_eq!(failure(&[]), DocumentError::MissingField("port"));
}

#[test]
fn repeated_field_fails_the_document() {
    assert_eq!(
        failure(&[("port", "1"), ("host", "h"), ("port", "1"), ("retries", "2")]),
        DocumentError::DuplicateField("port")
    );
}

#[test]
fn repeated_field_is_not_parsed_again() {
    assert_eq!(
        failure(&[("port", "1"), ("port", "not a number")]),
        DocumentError::DuplicateField("port")
    );
}

#[test]
fn first_failure_wins() {
    assert_eq!(
        failure(&[("port", "x"), ("port", "1")]),
        DocumentError::FieldDeserializationFailed("port", "no number: x".to_string())
    );
    assert_eq!(
        failure(&[("host", "h"), ("host", "h"), ("port", "x")]),
        DocumentError::DuplicateField("host")
    );
    assert_eq!(
        failure(&[("retries", "many")]),
        DocumentError::FieldDeserializationFailed("retries", "no number: many".to_string())
    );
}

#[test]
fn unknown_keys_change_nothing() {
    let plain = run(&[("host", "localhost"), ("retries", "3"), ("port", "8080")]).ok().unwrap();
    let noisy = run(&[
        ("colour", "red"),
        ("host", "localhost"),
        ("colour", "blue"),
        ("retries", "3"),
        ("", "x"),
        ("port", "8080"),
        ("Port", "not a number"),
    ])
    .ok()
    .unwrap();
    assert_eq!(noisy.len(), plain.len());
    for (field, identity) in [
        ("port", TypeId::of::<u16>()),
        ("host", TypeId::of::<String>()),
        ("retries", TypeId::of::<u8>()),
    ] {
        assert_eq!(store_get(&noisy, field, identity), store_get(&plain, field, identity));
    }
    assert!(!noisy.contains("colour"));
    assert_eq!(
        failure(&[("colour", "red"), ("port", "1"), ("retries", "1")]),
        failure(&[("port", "1"), ("retries", "1")])
    );
}

#[test]
fn nothing_registered_nothing_stored() {
    let records: [Record; 0] = [];
    let registry = Registry::new(&records).ok().unwrap();
    let made: Result<Store<i64>, DocumentError<String>> =
        deserialize(&registry, document(&[("port", "1")]));
    assert!(made.ok().unwrap().is_empty());
}

#[test]
fn steps_of_a_pass() {
    let records = records();
    let registry = Registry::new(&records).ok().unwrap();
    let mut engine: Engine<Routine, i64> = Engine::new(&registry);

    assert_eq!(engine.dispatch::<String>("colour"), Ok(Step::Skip));
    assert_eq!(engine.dispatch::<String>("retries"), Ok(Step::Parse(2)));
    assert_eq!(engine.parse(2, "3"), Ok(()));
    assert_eq!(engine.dispatch::<String>("retries"), Err(DocumentError::DuplicateField("retries")));
    assert_eq!(engine.dispatch::<String>("port"), Ok(Step::Parse(0)));
    assert_eq!(engine.fill::<String>(0, Ok(80)), Ok(()));
    assert_eq!(engine.dispatch::<String>("host"), Ok(Step::Parse(1)));
    assert_eq!(engine.parse(1, "localhost"), Ok(()));

    let store = engine.finish::<String>().ok().unwrap();
    assert_eq!(store.len(), 3);
    assert_eq!(store_get(&store, "port", TypeId::of::<u16>()), Some(&80));
    assert_eq!(store_get(&store, "retries", TypeId::of::<u8>()), Some(&3));
}

#[test]
fn stored_field_is_never_overwritten() {
    let records = records();
    let registry = Registry::new(&records).ok().unwrap();
    let mut engine: Engine<Routine, i64> = Engine::new(&registry);
    assert_eq!(engine.fill::<String>(0, Ok(80)), Ok(()));
    assert_eq!(engine.fill::<String>(0, Ok(81)), Err(DocumentError::DuplicateField("port")));
    assert_eq!(engine.parse(0, "82"), Err(DocumentError::DuplicateField("port")));
    assert_eq!(engine.fill(0, Err("late".to_string())), Err(DocumentError::DuplicateField("port")));
    assert_eq!(engine.fill::<String>(1, Ok(1)), Ok(()));
    assert_eq!(engine.fill::<String>(2, Ok(2)), Ok(()));
    let store = engine.finish::<String>().ok().unwrap();
    assert_eq!(store_get(&store, "port", TypeId::of::<u16>()), Some(&80));
}

#[test]
fn failed_value_stores_nothing() {
    let records = records();
    let registry = Registry::new(&records).ok().unwrap();
    let mut engine: Engine<Routine, i64> = Engine::new(&registry);
    assert_eq!(
        engine.fill(1, Err("broken".to_string())),
        Err(DocumentError::FieldDeserializationFailed("host", "broken".to_string()))
    );
    assert_eq!(engine.dispatch::<String>("host"), Ok(Step::Parse(1)));
    assert_eq!(engine.finish::<String>().err(), Some(DocumentError::MissingField("port")));
}

#[test]
fn init_publishes_an_accepted_document() {
    let records = records();
    let registry = Registry::new(&records).ok().unwrap();
    let mut holder: Singleton<Store<i64>> = Singleton::new();
    let made: Result<(), DocumentError<String>> =
        init(&mut holder, &registry, document(&[("port", "1"), ("host", "ab"), ("retries", "0")]));
    assert_eq!(made, Ok(()));
    let store = holder.get().unwrap();
    assert_eq!(store_get(store, "host", TypeId::of::<String>()), Some(&2));
}

#[test]
fn init_publishes_nothing_of_a_rejected_document() {
    let records = records();
    let registry = Registry::new(&records).ok().unwrap();
    let mut holder: Singleton<Store<i64>> = Singleton::new();
    let made: Result<(), DocumentError<String>> =
        init(&mut holder, &registry, document(&[("port", "1"), ("host", "ab")]));
    assert_eq!(made, Err(DocumentError::MissingField("retries")));
    assert!(holder.get().is_none());
    assert!(!holder.is_set());
}

#[test]
fn published_store_outlives_a_second_publication() {
    let records = records();
    let registry = Registry::new(&records).ok().unwrap();
    let mut holder: Singleton<Store<i64>> = Singleton::new();
    let first: Store<i64> = deserialize_entries::<_, _, String, _>(
        &registry,
        vec![("port".to_string(), "1"), ("host".to_string(), "ab"), ("retries".to_string(), "0")],
    )
    .ok()
    .unwrap();
    let second: Store<i64> = deserialize_entries::<_, _, String, _>(
        &registry,
        vec![("port".to_string(), "2"), ("host".to_string(), "abc"), ("retries".to_string(), "5")],
    )
    .ok()
    .unwrap();
    assert!(holder.publish(first).is_ok());
    let refused = holder.publish(second).err().unwrap();
    assert_eq!(store_get(&refused, "port", TypeId::of::<u16>()), Some(&2));
    let kept = holder.get().unwrap();
    assert_eq!(store_get(kept, "port", TypeId::of::<u16>()), Some(&1));
    assert_eq!(store_get(kept, "host", TypeId::of::<String>()), Some(&2));
    assert_eq!(store_get(kept, "retries", TypeId::of::<u8>()), Some(&0));
}

#[test]
fn order_of_entries_changes_nothing() {
    let entries = [("port", "8080"), ("host", "localhost"), ("retries", "3")];
    let orders = [[0, 1, 2], [0, 2, 1], [1, 0, 2], [1, 2, 0], [2, 0, 1], [2, 1, 0]];
    for order in orders {
        let rearranged: Vec<(&str, &'static str)> = order.iter().map(|&at| entries[at]).collect();
        let store = run(&rearranged).ok().unwrap();
        assert_eq!(store.len(), 3);
        assert_eq!(store_get(&store, "port", TypeId::of::<u16>()), Some(&8080));
        assert_eq!(store_get(&store, "host", TypeId::of::<String>()), Some(&9));
        assert_eq!(store_get(&store, "retries", TypeId::of::<u8>()), Some(&3));
    }
}

#[test]
fn failure_depends_on_the_order() {
    assert_eq!(
        failure(&[("port", "x"), ("host", "h"), ("host", "h")]),
        DocumentError::FieldDeserializationFailed("port", "no number: x".to_string())
    );
    assert_eq!(
        failure(&[("host", "h"), ("host", "h"), ("port", "x")]),
        DocumentError::DuplicateField("host")
    );
}

#[test]
fn root_has_to_be_a_map() {
    let records = records();
    let registry = Registry::new(&records).ok().unwrap();
    let made: Result<Store<i64>, DocumentError<String>> = deserialize(&registry, Document::Other);
    assert_eq!(made.err(), Some(DocumentError::UnexpectedDocumentShape));

    let mut holder: Singleton<Store<i64>> = Singleton::new();
    let made: Result<(), DocumentError<String>> = init(&mut holder, &registry, Document::Other);
    assert_eq!(made, Err(DocumentError::UnexpectedDocumentShape));
    assert!(!holder.is_set());
}

#[test]
fn root_of_no_entries_is_a_map() {
    let records: [Record; 0] = [];
    let registry = Registry::new(&records).ok().unwrap();
    let made: Result<Store<i64>, DocumentError<String>> =
        deserialize(&registry, Document::Entries(Vec::new()));
    assert!(made.ok().unwrap().is_empty());
    assert_eq!(failure(&[]), DocumentError::MissingField("port"));
}
