//! Tests of the observable cell and the entity set on their own.

use lazy_signals::signals::{Entity, EntitySet, LazyImmutable, Value, empty_set};

#[test]
fn entity_set_insert_deduplicates() {
    let mut s = empty_set();
    assert_eq!(s.len(), 0);
    let a = Entity { id: 1 };
    s.insert(a);
    s.insert(a);
    assert_eq!(s.len(), 1);
    assert!(s.contains(a));
    assert!(!s.contains(Entity { id: 2 }));
    s.clear();
    assert_eq!(s.len(), 0);
    assert!(!s.contains(a));
}

#[test]
fn entity_set_insert_all_and_intersects() {
    let mut a = EntitySet::new();
    a.insert(Entity { id: 1 });
    a.insert(Entity { id: 2 });
    let mut b = EntitySet::new();
    b.insert(Entity { id: 2 });
    b.insert(Entity { id: 3 });
    a.insert_all(&b);
    assert_eq!(a.len(), 3);
    assert!(a.intersects(&vec![Entity { id: 9 }, Entity { id: 3 }]));
    assert!(!a.intersects(&vec![Entity { id: 9 }]));
    assert!(!a.intersects(&Vec::new()));
}

#[test]
fn merge_commits_changed_value_and_captures_subscribers() {
    let mut cell = LazyImmutable::new(Value::Int(1));
    let reader = Entity { id: 7 };
    cell.subscribe(reader);
    cell.merge_subscribers();
    cell.merge_next(Value::Int(2));
    let subs = cell.merge();
    assert_eq!(cell.read(), Value::Int(2));
    assert!(subs.contains(reader));
    // the live set was cleared: the reader must re-subscribe by reading
    let subs2 = cell.get_subscribers();
    assert_eq!(subs2.len(), 0);
}

#[test]
fn merge_suppresses_equal_value() {
    let mut cell = LazyImmutable::new(Value::Str("same".to_string()));
    let reader = Entity { id: 7 };
    cell.subscribe(reader);
    cell.merge_subscribers();
    cell.merge_next(Value::Str("same".to_string()));
    let subs = cell.merge();
    assert_eq!(subs.len(), 0);
    assert_eq!(cell.read(), Value::Str("same".to_string()));
    // the live set is kept
    assert!(cell.get_subscribers().contains(reader));
}

#[test]
fn merge_without_pending_is_a_no_op() {
    let mut cell = LazyImmutable::new(Value::Bool(true));
    let subs = cell.merge();
    assert_eq!(subs.len(), 0);
    assert_eq!(cell.read(), Value::Bool(true));
}

#[test]
fn value_stages_subscription_only() {
    let mut cell = LazyImmutable::new(Value::Int(5));
    let reader = Entity { id: 3 };
    assert_eq!(cell.value(reader), Value::Int(5));
    // staged, not live: a merge that commits does not notify the reader
    cell.merge_next(Value::Int(6));
    let subs = cell.merge();
    assert!(!subs.contains(reader));
    // after the commit step the reader is live
    cell.merge_subscribers();
    cell.merge_next(Value::Int(7));
    let subs = cell.merge();
    assert!(subs.contains(reader));
}

#[test]
fn value_equality_is_deep() {
    assert!(Value::Str("ab".to_string()).equals(&Value::Str("ab".to_string())));
    assert!(!Value::Str("ab".to_string()).equals(&Value::Str("ba".to_string())));
    assert!(Value::Unit.equals(&Value::Unit));
    assert!(Value::Bool(true).equals(&Value::Bool(true)));
    assert!(!Value::Bool(true).equals(&Value::Bool(false)));
    assert!(Value::Int(4).equals(&Value::Int(4)));
    assert!(!Value::Int(4).equals(&Value::Int(5)));
    assert!(Value::Error("e".to_string()).equals(&Value::Error("e".to_string())));
    // different variants never compare equal
    assert!(!Value::Int(0).equals(&Value::Bool(false)));
    assert!(!Value::Str("e".to_string()).equals(&Value::Error("e".to_string())));
}

#[test]
fn duplicate_copies_value() {
    let v = Value::Str("copy".to_string());
    let w = v.duplicate();
    assert_eq!(v, w);
    let e = Value::Error("oops".to_string());
    assert_eq!(e.duplicate(), e);
}
