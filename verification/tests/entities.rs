use temporal_store::entity::{
    AttributeDescriptor, AttributeKind, BaseEntityAttribute, DatabaseValue, Entity,
    EntityIdentifier, EpochPtr,
};
use temporal_store::errors::EntityError;

#[test]
fn test_entity() {
    let initial_ptr = EpochPtr::default();
    let entity = Entity::new(
        EntityIdentifier::new("User".to_string()),
        vec![AttributeDescriptor::new(
            AttributeKind::Physical,
            String::from("name"),
            DatabaseValue::String("john".to_string()),
        )],
        &initial_ptr,
    );

    assert_eq!(
        entity.get("name").unwrap().get_initial(&initial_ptr),
        DatabaseValue::String("john".to_string())
    )
}

#[test]
fn test_attr_not_found() {
    let initial_ptr = EpochPtr::default();
    let entity = Entity::new(
        EntityIdentifier::new("User".to_string()),
        vec![AttributeDescriptor::new(
            AttributeKind::Physical,
            String::from("name"),
            DatabaseValue::String("john".to_string()),
        )],
        &initial_ptr,
    );
    assert!(entity.get("oops").is_err());
    assert_eq!(
        entity.get("oops").unwrap_err(),
        EntityError::AttributeNotFound("oops".to_string())
    )
}

#[test]
fn entity_equality_follows_identifier() {
    let initial_ptr = EpochPtr::default();
    let identifier = EntityIdentifier::new("User".to_string());
    let e1 = Entity::new(identifier.clone(), vec![], &initial_ptr);
    let e2 = Entity::new(identifier.clone(), vec![], &initial_ptr);
    let e3 = Entity::new(EntityIdentifier::new("User".to_string()), vec![], &initial_ptr);
    assert_eq!(e1, e2);
    assert_ne!(e1, e3);
}

#[test]
fn unpersisted_identifier_has_no_pk() {
    let id = EntityIdentifier::new("User".to_string());
    assert!(!id.has_applied_pk());
    assert_eq!(
        id.get_applied_pk().unwrap_err(),
        EntityError::UnpersistedEntity(id.clone())
    );
}

#[test]
fn persisted_identifier_exposes_pk() {
    let id = EntityIdentifier::new_persisted("User".to_string(), 7);
    assert!(id.has_applied_pk());
    assert_eq!(id.get_applied_pk().unwrap(), 7);
    assert_eq!(id.get_model(), &"User".to_string());
}

#[test]
fn set_applied_pk_installs_key() {
    let mut id = EntityIdentifier::new("User".to_string());
    assert!(!id.has_applied_pk());
    id.set_applied_pk(5);
    assert!(id.has_applied_pk());
    assert_eq!(id.get_applied_pk().unwrap(), 5);
    let other = EntityIdentifier::new_persisted("User".to_string(), 5);
    assert_eq!(id, other);
}

#[test]
fn identifier_clone_is_equal() {
    let id = EntityIdentifier::new("Book".to_string());
    let copy = id.clone();
    assert_eq!(id, copy);
    assert_eq!(id.get_uuid(), copy.get_uuid());
}

#[test]
fn seeded_value_reads_at_both_cursors() {
    let mut initial_ptr = EpochPtr::default();
    initial_ptr.slide(4);
    let entity = Entity::new(
        EntityIdentifier::new("User".to_string()),
        vec![AttributeDescriptor::new(
            AttributeKind::Physical,
            String::from("age"),
            DatabaseValue::Number(30),
        )],
        &initial_ptr,
    );
    let attr = entity.get("age").unwrap();
    assert_eq!(attr.get_initial(&initial_ptr), DatabaseValue::Number(30));
    let mut current_ptr = EpochPtr::default();
    current_ptr.slide(100);
    assert_eq!(attr.get_value(&current_ptr), DatabaseValue::Number(30));
}

#[test]
fn duplicate_descriptor_names_keep_the_last() {
    let initial_ptr = EpochPtr::default();
    let entity = Entity::new(
        EntityIdentifier::new("User".to_string()),
        vec![
            AttributeDescriptor::new(
                AttributeKind::Physical,
                String::from("name"),
                DatabaseValue::String("first".to_string()),
            ),
            AttributeDescriptor::new(
                AttributeKind::Physical,
                String::from("name"),
                DatabaseValue::String("second".to_string()),
            ),
        ],
        &initial_ptr,
    );
    assert_eq!(
        entity.get("name").unwrap().get_initial(&initial_ptr),
        DatabaseValue::String("second".to_string())
    );
}
