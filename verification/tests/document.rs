//! Whole documents, read through serde: the engine is driven by a visitor
//! over the top-level map, and every value is parsed through an erased
//! deserializer by the routine of its registration.

use head_empty::{
    store_get, DocumentError, Engine, Registration, Registry, RegistryError, Step, Store,
};
use serde::de::{self, Deserialize, DeserializeSeed, Deserializer, IgnoredAny, MapAccess, Visitor};
use std::any::{Any, TypeId};
use std::borrow::Cow;
use std::fmt;

type Erased = Box<dyn Any + Send + Sync>;
type DeserializeFn = fn(&mut dyn erased_serde::Deserializer) -> erased_serde::Result<Erased>;
type Failure = DocumentError<erased_serde::Error>;

#[derive(Debug, PartialEq, Eq)]
struct Mysql {
    host: String,
    database: String,
    user: String,
    password: String,
}

struct MysqlVisitor;

impl<'de> Visitor<'de> for MysqlVisitor {
    type Value = Mysql;

    fn expecting(&self, formatter: &mut fmt::Formatter) -> fmt::Result {
        formatter.write_str("struct Mysql")
    }

    fn visit_map<A>(self, mut map: A) -> Result<Mysql, A::Error>
    where
        A: MapAccess<'de>,
    {
        let mut host = None;
        let mut database = None;
        let mut user = None;
        let mut password = None;
        while let Some(key) = map.next_key::<String>()? {
            match key.as_str() {
                "host" => host = Some(map.next_value()?),
                "database" => database = Some(map.next_value()?),
                "user" => user = Some(map.next_value()?),
                "password" => password = Some(map.next_value()?),
                _ => {
                    map.next_value::<IgnoredAny>()?;
                }
            }
        }
        Ok(Mysql {
            host: host.ok_or_else(|| de::Error::missing_field("host"))?,
            database: database.ok_or_else(|| de::Error::missing_field("database"))?,
            user: user.ok_or_else(|| de::Error::missing_field("user"))?,
            password: password.ok_or_else(|| de::Error::missing_field("password"))?,
        })
    }
}

impl<'de> Deserialize<'de> for Mysql {
    fn deserialize<D>(der: D) -> Result<Self, D::Error>
    where
        D: Deserializer<'de>,
    {
        der.deserialize_map(MysqlVisitor)
    }
}

fn registrations() -> [Registration<DeserializeFn>; 2] {
    [
        Registration {
            field: "mysql",
            type_id: TypeId::of::<Mysql>(),
            deserialize: |d| Ok(Box::new(erased_serde::deserialize::<Mysql>(d)?)),
        },
        Registration {
            field: "listen_port",
            type_id: TypeId::of::<u16>(),
            deserialize: |d| Ok(Box::new(erased_serde::deserialize::<u16>(d)?)),
        },
    ]
}

fn report<E: de::Error>(failure: Failure) -> E {
    match failure {
        DocumentError::DuplicateField(field) => E::duplicate_field(field),
        DocumentError::MissingField(field) => E::missing_field(field),
        DocumentError::FieldDeserializationFailed(_, cause) => E::custom(cause),
        DocumentError::UnexpectedDocumentShape => {
            E::invalid_type(de::Unexpected::Other("no map"), &"Configuration")
        }
    }
}

struct Pass<'r, 'a> {
    registry: &'r Registry<'a, DeserializeFn>,
}

struct Field<'e, 'r, 'a> {
    engine: &'e mut Engine<'r, 'a, DeserializeFn, Erased>,
    index: usize,
}

impl<'de> DeserializeSeed<'de> for Field<'_, '_, '_> {
    type Value = Result<(), Failure>;

    fn deserialize<D>(self, der: D) -> Result<Self::Value, D::Error>
    where
        D: Deserializer<'de>,
    {
        let mut erased = <dyn erased_serde::Deserializer>::erase(der);
        let input: &mut dyn erased_serde::Deserializer = &mut erased;
        Ok(self.engine.parse(self.index, input))
    }
}

impl<'de> Visitor<'de> for Pass<'_, '_> {
    type Value = Store<Erased>;

    fn expecting(&self, formatter: &mut fmt::Formatter) -> fmt::Result {
        formatter.write_str("Configuration")
    }

    fn visit_map<A>(self, mut map: A) -> Result<Self::Value, A::Error>
    where
        A: MapAccess<'de>,
    {
        let mut engine = Engine::new(self.registry);
        while let Some(key) = map.next_key::<Cow<str>>()? {
            match engine.dispatch::<erased_serde::Error>(&key).map_err(report)? {
                Step::Skip => {
                    map.next_value::<IgnoredAny>()?;
                }
                Step::Parse(index) => {
                    let field = Field { engine: &mut engine, index };
                    map.next_value_seed(field)?.map_err(report)?;
                }
            }
        }
        engine.finish().map_err(report)
    }
}

fn deserialize<'de, Der>(
    regs: &[Registration<DeserializeFn>],
    der: Der,
) -> Result<Store<Erased>, Der::Error>
where
    Der: Deserializer<'de>,
{
    let registry = match Registry::new(regs) {
        Ok(registry) => registry,
        Err(RegistryError::DuplicateField(field)) => {
            panic!("The field '{}' was registered once too many times", field)
        }
        Err(RegistryError::DuplicateType(field)) => {
            panic!("The type of the field '{}' was registered once too many times", field)
        }
    };
    der.deserialize_map(Pass { registry: &registry })
}

fn get<'a, T: 'static>(store: &'a Store<Erased>, field: &'static str) -> &'a T {
    store_get(store, field, TypeId::of::<T>()).unwrap().downcast_ref().unwrap()
}

fn mysql_value() -> serde_json::Value {
    let mut mysql = serde_json::Map::new();
    mysql.insert("host".to_string(), serde_json::Value::from("localhost:5432"));
    mysql.insert("database".to_string(), serde_json::Value::from("test"));
    mysql.insert("user".to_string(), serde_json::Value::from("root"));
    mysql.insert("password".to_string(), serde_json::Value::from("toor"));
    serde_json::Value::Object(mysql)
}

#[test]
fn missing_field() {
    let mut document = serde_json::Map::new();
    document.insert("listen_port".to_string(), serde_json::Value::from(8080));
    let de = serde_json::Value::Object(document);

    let registrations = registrations();

    assert!(deserialize(&registrations, de).is_err());
}

#[test]
fn smoke_test() {
    let mut document = serde_json::Map::new();
    document.insert("mysql".to_string(), mysql_value());
    document.insert("listen_port".to_string(), serde_json::Value::from(8080));
    let de = serde_json::Value::Object(document);

    let registrations = registrations();
    let store = deserialize(&registrations, de).unwrap();

    assert_eq!(store.len(), registrations.len());

    assert_eq!(
        get::<Mysql>(&store, "mysql"),
        &Mysql {
            host: "localhost:5432".into(),
            database: "test".into(),
            user: "root".into(),
            password: "toor".into()
        }
    );

    assert_eq!(get::<u16>(&store, "listen_port"), &8080);
}

#[test]
fn missing_field_is_named() {
    let registrations = registrations();
    let mut de = serde_json::Deserializer::from_str(r#"{"listen_port": 8080}"#);
    let error = deserialize(&registrations, &mut de).err().unwrap();
    assert!(error.to_string().starts_with("missing field `mysql`"));
}

#[test]
fn key_order_is_irrelevant() {
    let registrations = registrations();
    let text = r#"{
        "listen_port": 8080,
        "mysql": {"password": "toor", "user": "root", "database": "test", "host": "localhost:5432"}
    }"#;
    let mut de = serde_json::Deserializer::from_str(text);
    let store = deserialize(&registrations, &mut de).unwrap();
    assert_eq!(store.len(), 2);
    assert_eq!(get::<u16>(&store, "listen_port"), &8080);
    assert_eq!(get::<Mysql>(&store, "mysql").host, "localhost:5432");
}

#[test]
fn duplicate_field_in_document() {
    let registrations = registrations();
    let text = r#"{"listen_port": 8080, "listen_port": 9090, "mysql": 1}"#;
    let mut de = serde_json::Deserializer::from_str(text);
    let error = deserialize(&registrations, &mut de).err().unwrap();
    assert!(error.to_string().starts_with("duplicate field `listen_port`"));
}

#[test]
fn unknown_fields_are_passed_over() {
    let registrations = registrations();
    let text = r#"{
        "verbose": true,
        "listen_port": 8080,
        "limits": {"depth": [1, 2, 3]},
        "mysql": {"host": "h", "database": "d", "user": "u", "password": "p"},
        "verbose": false
    }"#;
    let mut de = serde_json::Deserializer::from_str(text);
    let store = deserialize(&registrations, &mut de).unwrap();
    assert_eq!(store.len(), 2);
    assert!(!store.contains("verbose"));
    assert!(!store.contains("limits"));
    assert_eq!(get::<u16>(&store, "listen_port"), &8080);
}

#[test]
fn value_of_the_wrong_shape() {
    let registrations = registrations();
    let text = r#"{"listen_port": "eighty", "mysql": 1}"#;
    let mut de = serde_json::Deserializer::from_str(text);
    let error = deserialize(&registrations, &mut de).err().unwrap();
    assert!(error.to_string().contains("invalid type: string \"eighty\", expected u16"));
}

#[test]
fn value_out_of_range() {
    let registrations = registrations();
    let mut de = serde_json::Deserializer::from_str(r#"{"listen_port": 70000}"#);
    assert!(deserialize(&registrations, &mut de).is_err());
}

#[test]
fn root_that_is_no_map() {
    let registrations = registrations();
    let error = deserialize(&registrations, serde_json::Value::from(5)).err().unwrap();
    assert_eq!(error.to_string(), "invalid type: integer `5`, expected Configuration");
}

#[test]
fn empty_registry_takes_any_map() {
    let mut de = serde_json::Deserializer::from_str(r#"{"anything": [1, 2]}"#);
    let store = deserialize(&[], &mut de).unwrap();
    assert!(store.is_empty());
}

#[test]
fn value_is_kept_from_a_reader_of_another_type() {
    let mut document = serde_json::Map::new();
    document.insert("mysql".to_string(), mysql_value());
    document.insert("listen_port".to_string(), serde_json::Value::from(8080));
    let registrations = registrations();
    let store = deserialize(&registrations, serde_json::Value::Object(document)).unwrap();
    assert!(store_get(&store, "listen_port", TypeId::of::<Mysql>()).is_none());
    assert!(store_get(&store, "listen_port", TypeId::of::<u32>()).is_none());
    assert!(store_get(&store, "listen_port", TypeId::of::<u16>()).is_some());
    assert!(store_get(&store, "port", TypeId::of::<u16>()).is_none());
}

#[test]
fn field_registered_twice() {
    let registrations: [Registration<DeserializeFn>; 2] = [
        Registration {
            field: "same_field",
            type_id: TypeId::of::<String>(),
            deserialize: |d| Ok(Box::new(erased_serde::deserialize::<String>(d)?)),
        },
        Registration {
            field: "same_field",
            type_id: TypeId::of::<u16>(),
            deserialize: |d| Ok(Box::new(erased_serde::deserialize::<u16>(d)?)),
        },
    ];
    assert_eq!(
        Registry::new(&registrations).err(),
        Some(RegistryError::DuplicateField("same_field"))
    );
}
