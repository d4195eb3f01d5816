use temporal_store::entity::{
    AttributeDescriptor, AttributeKind, BaseEntityAttribute, DatabaseValue, EntityIdentifier,
};
use temporal_store::entity_store::EntityStore;
use temporal_store::errors::EntityError;
use temporal_store::expression::{ExactExpression, FilterExpression};

fn default_descriptors() -> Vec<AttributeDescriptor> {
    vec!["name", "age"]
        .iter()
        .map(|attr| {
            AttributeDescriptor::new(
                AttributeKind::Physical,
                attr.to_string(),
                DatabaseValue::String(format!("default {}", attr)),
            )
        })
        .collect()
}

#[test]
fn test_entity_store_add_and_get() {
    let mut entity_store = EntityStore::new();
    let identifier = EntityIdentifier::new("User".to_string());
    let attributes_descriptors = default_descriptors();
    let entity = entity_store.instantiate_entity(identifier.clone(), attributes_descriptors);

    let entity_store = entity_store;

    assert_eq!(
        entity_store
            .entity(entity)
            .get("name")
            .unwrap()
            .get_initial(entity_store.initial_ptr()),
        DatabaseValue::String("default name".to_string())
    );
    assert_eq!(
        entity_store
            .entity(entity)
            .get("name")
            .unwrap()
            .get_value(entity_store.current_ptr()),
        DatabaseValue::String("default name".to_string())
    );

    assert_eq!(entity_store.entity(entity).get_identifier(), &identifier);
    assert!(entity_store.get(entity_store.entity(entity).get_identifier()).is_ok());
    assert_eq!(
        entity_store.get(entity_store.entity(entity).get_identifier()).unwrap(),
        entity
    );
    assert_eq!(
        entity_store.get(&identifier).unwrap(),
        entity_store.get(&identifier.clone()).unwrap()
    );
}

#[test]
fn test_entity_identifier_equality() {
    let id1 = EntityIdentifier::new("User".to_string());

    let id2 = EntityIdentifier::new("Book".to_string());
    let id3 = EntityIdentifier::new_persisted("User".to_string(), 1);
    let id4 = EntityIdentifier::new_persisted("User".to_string(), 1);
    let id5 = EntityIdentifier::new_persisted("User".to_string(), 2);

    assert_eq!(id1, id1);
    assert_ne!(id1, id2);
    assert_ne!(id1, id3);
    assert_ne!(id1, id4);
    assert_ne!(id1, id5);

    assert_ne!(id2, id1);
    assert_eq!(id2, id2);
    assert_ne!(id2, id3);
    assert_ne!(id2, id4);
    assert_ne!(id2, id5);

    assert_ne!(id3, id1);
    assert_ne!(id3, id2);
    assert_eq!(id3, id3);
    assert_eq!(id3, id4);
    assert_ne!(id3, id5);

    assert_ne!(id4, id1);
    assert_ne!(id4, id2);
    assert_eq!(id4, id3);
    assert_eq!(id4, id4);
    assert_ne!(id4, id5);

    assert_ne!(id5, id1);
    assert_ne!(id5, id2);
    assert_ne!(id5, id3);
    assert_ne!(id5, id4);
    assert_eq!(id5, id5);
}

#[test]
fn test_entity_filter() {
    let mut entity_store = EntityStore::new();
    let attributes_descriptors = default_descriptors();

    for i in 1..100 {
        let identifier = EntityIdentifier::new("User".to_string());

        let entity =
            entity_store.instantiate_entity(identifier.clone(), attributes_descriptors.clone());
        entity_store
            .set_attribute_value(entity, "name", DatabaseValue::String(format!("user {}", i)), 1)
            .unwrap();
        entity_store
            .set_attribute_value(entity, "age", DatabaseValue::Number(i), 1)
            .unwrap();
    }

    entity_store.slide_current(1);
    let list = entity_store
        .filter(
            "User".to_string(),
            &FilterExpression::Exact(ExactExpression::new(
                "name".to_string(),
                DatabaseValue::String("user 4".to_string()),
            )),
        )
        .unwrap();
    assert_eq!(list.len(), 1);
    let entity = *list.first().unwrap();
    assert_eq!(
        entity_store
            .entity(entity)
            .get("name")
            .unwrap()
            .get_value(entity_store.current_ptr()),
        DatabaseValue::String("user 4".to_string())
    );
}

#[test]
fn instantiate_twice_returns_first_handle() {
    let mut entity_store = EntityStore::new();
    let identifier = EntityIdentifier::new("User".to_string());
    let first = entity_store.instantiate_entity(identifier.clone(), default_descriptors());
    assert_eq!(entity_store.num_entities(), 1);

    let other_descriptors = vec![AttributeDescriptor::new(
        AttributeKind::Physical,
        "name".to_string(),
        DatabaseValue::String("ignored".to_string()),
    )];
    let second = entity_store.instantiate_entity(identifier.clone(), other_descriptors);
    assert_eq!(first, second);
    assert_eq!(entity_store.num_entities(), 1);
    assert_eq!(
        entity_store
            .entity(second)
            .get("name")
            .unwrap()
            .get_initial(entity_store.initial_ptr()),
        DatabaseValue::String("default name".to_string())
    );
}

#[test]
fn get_unknown_identifier_fails() {
    let entity_store = EntityStore::new();
    let identifier = EntityIdentifier::new("User".to_string());
    let err = entity_store.get(&identifier).unwrap_err();
    assert_eq!(err, EntityError::EntityNotFound(identifier));
}

#[test]
fn get_by_persisted_key_finds_entity() {
    let mut entity_store = EntityStore::new();
    let stored = EntityIdentifier::new_persisted("User".to_string(), 1);
    let handle = entity_store.instantiate_entity(stored, default_descriptors());

    let probe = EntityIdentifier::new_persisted("User".to_string(), 1);
    assert_eq!(entity_store.get(&probe).unwrap(), handle);

    let wrong_pk = EntityIdentifier::new_persisted("User".to_string(), 2);
    assert!(entity_store.get(&wrong_pk).is_err());
    let wrong_model = EntityIdentifier::new_persisted("Book".to_string(), 1);
    assert!(entity_store.get(&wrong_model).is_err());
}

#[test]
fn filter_unknown_model_is_empty() {
    let mut entity_store = EntityStore::new();
    let identifier = EntityIdentifier::new("User".to_string());
    entity_store.instantiate_entity(identifier, default_descriptors());
    let list = entity_store
        .filter(
            "Book".to_string(),
            &FilterExpression::Exact(ExactExpression::new(
                "name".to_string(),
                DatabaseValue::String("x".to_string()),
            )),
        )
        .unwrap();
    assert!(list.is_empty());
}

#[test]
fn filter_missing_attribute_fails() {
    let mut entity_store = EntityStore::new();
    let identifier = EntityIdentifier::new("User".to_string());
    entity_store.instantiate_entity(identifier, default_descriptors());
    let err = entity_store
        .filter(
            "User".to_string(),
            &FilterExpression::Exact(ExactExpression::new(
                "oops".to_string(),
                DatabaseValue::String("x".to_string()),
            )),
        )
        .unwrap_err();
    assert_eq!(err, EntityError::AttributeNotFound("oops".to_string()));
}

#[test]
fn filter_reads_at_current_epoch() {
    let mut entity_store = EntityStore::new();
    let identifier = EntityIdentifier::new("User".to_string());
    let handle = entity_store.instantiate_entity(identifier, default_descriptors());
    entity_store
        .set_attribute_value(handle, "name", DatabaseValue::String("later".to_string()), 5)
        .unwrap();

    let expression = FilterExpression::Exact(ExactExpression::new(
        "name".to_string(),
        DatabaseValue::String("later".to_string()),
    ));
    assert!(entity_store.filter("User".to_string(), &expression).unwrap().is_empty());
    entity_store.slide_current(5);
    assert_eq!(entity_store.filter("User".to_string(), &expression).unwrap(), vec![handle]);
}

#[test]
fn filter_keeps_insertion_order() {
    let mut entity_store = EntityStore::new();
    let mut handles = Vec::new();
    for _ in 0..5 {
        let identifier = EntityIdentifier::new("User".to_string());
        handles.push(entity_store.instantiate_entity(identifier, default_descriptors()));
    }
    for &handle in &[handles[0], handles[2], handles[4]] {
        entity_store
            .set_attribute_value(handle, "name", DatabaseValue::String("match".to_string()), 1)
            .unwrap();
    }
    entity_store.slide_current(1);
    let list = entity_store
        .filter(
            "User".to_string(),
            &FilterExpression::Exact(ExactExpression::new(
                "name".to_string(),
                DatabaseValue::String("match".to_string()),
            )),
        )
        .unwrap();
    assert_eq!(list, vec![handles[0], handles[2], handles[4]]);
}
