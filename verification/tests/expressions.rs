use temporal_store::entity::DatabaseValue;
use temporal_store::expression::{ExactExpression, ExpressionTrait, FilterExpression};

#[test]
fn test_equal_expression_include() {
    let exact_expr1 =
        ExactExpression::new("name".to_string(), DatabaseValue::String("john".to_string()));
    let exact_expr2 =
        ExactExpression::new("name".to_string(), DatabaseValue::String("john".to_string()));
    let exact_expr3 =
        ExactExpression::new("name".to_string(), DatabaseValue::String("doe".to_string()));
    let exact_expr4 =
        ExactExpression::new("surname".to_string(), DatabaseValue::String("doe".to_string()));

    let expr1: FilterExpression = exact_expr1.clone().into();
    let expr2: FilterExpression = exact_expr2.clone().into();
    let expr3: FilterExpression = exact_expr3.clone().into();
    let expr4: FilterExpression = exact_expr4.clone().into();

    assert!(exact_expr1.contains(&expr1));
    assert!(exact_expr1.contains(&expr2));
    assert!(!exact_expr1.contains(&expr3));
    assert!(!exact_expr1.contains(&expr4));

    assert!(exact_expr2.contains(&expr1));
    assert!(exact_expr2.contains(&expr2));
    assert!(!exact_expr2.contains(&expr3));
    assert!(!exact_expr2.contains(&expr4));

    assert!(!exact_expr3.contains(&expr1));
    assert!(!exact_expr3.contains(&expr2));
    assert!(exact_expr3.contains(&expr3));
    assert!(!exact_expr3.contains(&expr4));

    assert!(!exact_expr4.contains(&expr1));
    assert!(!exact_expr4.contains(&expr2));
    assert!(!exact_expr4.contains(&expr3));
    assert!(exact_expr4.contains(&expr4));
}

#[test]
fn contains_is_reflexive_on_values() {
    let cases = vec![
        ExactExpression::new("name".to_string(), DatabaseValue::String("john".to_string())),
        ExactExpression::new("age".to_string(), DatabaseValue::Number(30)),
        ExactExpression::new("empty".to_string(), DatabaseValue::Null),
    ];
    for case in cases {
        let tree: FilterExpression = case.clone().into();
        assert!(case.contains(&tree));
    }
}
