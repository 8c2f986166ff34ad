use docweave::{get_field_by_name, Entity, EntityTable, Field, FieldValue};

fn text(s: &str) -> FieldValue {
    FieldValue::Text(s.to_string())
}

#[test]
fn entity_keeps_fields_in_the_order_of_their_names() {
    let mut e = Entity::new();
    assert_eq!(e.len(), 0);
    e.insert("b".to_string(), text("1"));
    e.insert("a".to_string(), FieldValue::Number);
    e.insert("b".to_string(), text("2"));
    assert_eq!(e.len(), 2);
    assert_eq!(e.names(), vec!["b".to_string(), "a".to_string()]);
    assert_eq!(e.field(0), &Field { name: "b".to_string(), value: text("2") });
    assert_eq!(e.field(1), &Field { name: "a".to_string(), value: FieldValue::Number });
}

#[test]
fn entity_from_fields_keeps_the_last_of_a_name() {
    let e = Entity::from_fields(vec![
        Field { name: "x".to_string(), value: text("old") },
        Field { name: "y".to_string(), value: FieldValue::Null },
        Field { name: "x".to_string(), value: text("new") },
    ]);
    assert_eq!(e.names(), vec!["x".to_string(), "y".to_string()]);
    assert_eq!(get_field_by_name(&e, "x"), Some("new".to_string()));
}

#[test]
fn get_field_by_name_gives_text_only() {
    let mut e = Entity::new();
    e.insert("s".to_string(), text("hello"));
    e.insert("empty".to_string(), text(""));
    e.insert("n".to_string(), FieldValue::Number);
    e.insert("b".to_string(), FieldValue::Bool(true));
    e.insert("z".to_string(), FieldValue::Null);
    e.insert("a".to_string(), FieldValue::Array);
    e.insert("o".to_string(), FieldValue::Object);
    assert_eq!(get_field_by_name(&e, "s"), Some("hello".to_string()));
    assert_eq!(get_field_by_name(&e, "empty"), Some(String::new()));
    assert_eq!(get_field_by_name(&e, "n"), None);
    assert_eq!(get_field_by_name(&e, "b"), None);
    assert_eq!(get_field_by_name(&e, "z"), None);
    assert_eq!(get_field_by_name(&e, "a"), None);
    assert_eq!(get_field_by_name(&e, "o"), None);
    assert_eq!(get_field_by_name(&e, "missing"), None);
    assert_eq!(get_field_by_name(&e, "S"), None);
}

#[test]
fn table_holds_one_entity_under_a_name() {
    let mut first = Entity::new();
    first.insert("v".to_string(), text("1"));
    let mut second = Entity::new();
    second.insert("v".to_string(), text("2"));
    let mut other = Entity::new();
    other.insert("w".to_string(), text("3"));

    let mut t = EntityTable::new();
    assert_eq!(t.len(), 0);
    assert!(t.get("a").is_none());
    t.insert("a".to_string(), first);
    t.insert("b".to_string(), other.clone());
    t.insert("a".to_string(), second.clone());
    assert_eq!(t.len(), 2);
    assert_eq!(t.get("a"), Some(&second));
    assert_eq!(t.get("b"), Some(&other));
    assert!(t.get("c").is_none());
    assert_eq!(t.entry(0).name, "a");
    assert_eq!(t.entry(1).name, "b");
}

#[test]
fn a_clone_holds_what_the_entity_holds() {
    let mut e = Entity::new();
    e.insert("s".to_string(), text("hello"));
    e.insert("n".to_string(), FieldValue::Number);
    e.insert("b".to_string(), FieldValue::Bool(false));
    let copy = e.clone();
    assert_eq!(copy, e);
    assert_eq!(copy.names(), vec!["s".to_string(), "n".to_string(), "b".to_string()]);
    assert_eq!(get_field_by_name(&copy, "s"), Some("hello".to_string()));

    let mut t = EntityTable::new();
    t.insert("p".to_string(), e.clone());
    t.insert("q".to_string(), Entity::new());
    let table_copy = t.clone();
    assert_eq!(table_copy, t);
    assert_eq!(table_copy.get("p"), Some(&e));
    assert_eq!(table_copy.entry(1).clone(), t.entry(1).clone());
    assert_eq!(e.field(0).clone(), Field { name: "s".to_string(), value: text("hello") });
}

#[test]
fn no_name_occurs_twice() {
    let mut e = Entity::new();
    for name in ["a", "b", "a", "c", "b", "a"] {
        e.insert(name.to_string(), text(name));
    }
    assert_eq!(e.names(), vec!["a".to_string(), "b".to_string(), "c".to_string()]);
    let mut t = EntityTable::new();
    for name in ["x", "y", "x", "x", "z", "y"] {
        t.insert(name.to_string(), e.clone());
    }
    assert_eq!(t.len(), 3);
    let names: Vec<String> = (0..t.len()).map(|i| t.entry(i).name.clone()).collect();
    assert_eq!(names, vec!["x".to_string(), "y".to_string(), "z".to_string()]);
}
