use temporal_store::entity::{BaseEntityAttribute, DatabaseValue, EpochPtr, PhysicalAttribute};

#[test]
fn get_ptr_slide() {
    let initial_ptr = EpochPtr::default();
    let mut current_ptr = EpochPtr::default();
    current_ptr.slide(2);
    let mut attr: PhysicalAttribute = PhysicalAttribute::new();
    attr.set_value(DatabaseValue::Number(42), 0);
    attr.set_value(DatabaseValue::Number(52), 2);

    assert_eq!(attr.get_initial(&initial_ptr), DatabaseValue::Number(42));
    assert_eq!(attr.get_value(&current_ptr), DatabaseValue::Number(52));
    current_ptr.slide(3);
    assert_eq!(attr.get_initial(&initial_ptr), DatabaseValue::Number(42));
    assert_eq!(attr.get_value(&current_ptr), DatabaseValue::Number(52));

    current_ptr.slide(0);
    assert_eq!(attr.get_initial(&initial_ptr), DatabaseValue::Number(42));
    assert_eq!(attr.get_value(&current_ptr), DatabaseValue::Number(42));
}

#[test]
fn cursor_starts_at_zero_and_slides() {
    let mut ptr = EpochPtr::default();
    assert_eq!(ptr.get_epoch(), 0);
    ptr.slide(7);
    assert_eq!(ptr.get_epoch(), 7);
    ptr.slide(-3);
    assert_eq!(ptr.get_epoch(), -3);
}

#[test]
fn last_write_wins_at_equal_epochs() {
    let mut attr = PhysicalAttribute::new();
    attr.set_value(DatabaseValue::Number(1), 5);
    attr.set_value(DatabaseValue::Number(2), 5);
    assert_eq!(attr.get_at_epoch(5), DatabaseValue::Number(2));
    assert_eq!(attr.get_at_epoch(6), DatabaseValue::Number(2));
}

#[test]
fn read_before_history_clamps_to_earliest() {
    let mut attr = PhysicalAttribute::new();
    attr.set_value(DatabaseValue::Number(10), 3);
    attr.set_value(DatabaseValue::Number(20), 8);
    assert_eq!(attr.get_at_epoch(-100), DatabaseValue::Number(10));
    assert_eq!(attr.get_at_epoch(2), DatabaseValue::Number(10));
}

#[test]
fn insert_out_of_order_keeps_history_sorted() {
    let mut attr = PhysicalAttribute::new();
    attr.set_value(DatabaseValue::Number(100), 10);
    attr.set_value(DatabaseValue::Number(50), 5);
    assert_eq!(attr.get_at_epoch(7), DatabaseValue::Number(50));
    assert_eq!(attr.get_at_epoch(10), DatabaseValue::Number(100));
    assert_eq!(attr.get_at_epoch(4), DatabaseValue::Number(50));
}

#[test]
fn null_values_compare_structurally() {
    assert_eq!(DatabaseValue::Null, DatabaseValue::Null);
    assert_ne!(DatabaseValue::Null, DatabaseValue::Number(0));
    assert_ne!(DatabaseValue::Null, DatabaseValue::String(String::new()));
    assert_eq!(
        DatabaseValue::String("a".to_string()),
        DatabaseValue::String("a".to_string())
    );
    assert_ne!(
        DatabaseValue::String("a".to_string()),
        DatabaseValue::String("b".to_string())
    );
    assert_ne!(DatabaseValue::Number(1), DatabaseValue::String("1".to_string()));
}

#[test]
fn temporal_read_scenario() {
    let initial_ptr = EpochPtr::default();
    let mut current_ptr = EpochPtr::default();
    let mut attr = PhysicalAttribute::new();
    attr.set_value(DatabaseValue::Number(42), 0);
    attr.set_value(DatabaseValue::Number(52), 2);
    current_ptr.slide(2);
    assert_eq!(attr.get_initial(&initial_ptr), DatabaseValue::Number(42));
    assert_eq!(attr.get_value(&current_ptr), DatabaseValue::Number(52));
    current_ptr.slide(3);
    assert_eq!(attr.get_value(&current_ptr), DatabaseValue::Number(52));
    current_ptr.slide(0);
    assert_eq!(attr.get_value(&current_ptr), DatabaseValue::Number(42));
}
