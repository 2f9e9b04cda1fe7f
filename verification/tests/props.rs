use tbd_iac::props::{leaf_eq, props_diff, PropLeaf, Props};

#[test]
fn test_put_get_replace() {
    let mut p = Props::empty();
    p.put("name".to_string(), PropLeaf::Str("alpha".to_string()));
    p.put("count".to_string(), PropLeaf::Int(3));
    p.put("name".to_string(), PropLeaf::Str("beta".to_string()));
    assert_eq!(p.entries.len(), 2);
    match p.get(&"name".to_string()) {
        Some(PropLeaf::Str(v)) => assert_eq!(v, "beta"),
        _ => panic!("expected replaced string value"),
    }
    assert!(p.get(&"absent".to_string()).is_none());
}

#[test]
fn test_leaf_eq_distinguishes_values() {
    assert!(leaf_eq(&PropLeaf::Null, &PropLeaf::Null));
    assert!(leaf_eq(&PropLeaf::Int(4), &PropLeaf::Int(4)));
    assert!(!leaf_eq(&PropLeaf::Int(4), &PropLeaf::Int(5)));
    assert!(!leaf_eq(&PropLeaf::Bool(true), &PropLeaf::Int(1)));
    assert!(leaf_eq(
        &PropLeaf::Str("x".to_string()),
        &PropLeaf::Str("x".to_string())
    ));
}

#[test]
fn test_props_diff_reports_changes_and_removals() {
    let mut desired = Props::empty();
    desired.put("kept".to_string(), PropLeaf::Int(1));
    desired.put("changed".to_string(), PropLeaf::Int(2));
    desired.put("added".to_string(), PropLeaf::Bool(true));
    let mut stored = Props::empty();
    stored.put("kept".to_string(), PropLeaf::Int(1));
    stored.put("changed".to_string(), PropLeaf::Int(9));
    stored.put("removed".to_string(), PropLeaf::Null);
    let d = props_diff(&desired, &stored);
    let paths: Vec<&str> = d.iter().map(|e| e.path.as_str()).collect();
    assert_eq!(paths, vec!["changed", "added", "removed"]);
}

#[test]
fn test_props_diff_empty_for_equal_documents() {
    let mut a = Props::empty();
    a.put("x".to_string(), PropLeaf::Int(1));
    a.put("y".to_string(), PropLeaf::Str("v".to_string()));
    let mut b = Props::empty();
    // Same map, different entry order.
    b.put("y".to_string(), PropLeaf::Str("v".to_string()));
    b.put("x".to_string(), PropLeaf::Int(1));
    assert!(props_diff(&a, &b).is_empty());
    assert!(props_diff(&b, &a).is_empty());
}
