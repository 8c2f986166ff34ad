use docweave::{
    build_table, compile_block, compile_entities, get_field_by_name, object_bank, BankEntry,
    Entity, FieldValue,
};

fn strings(items: &[&str]) -> Vec<String> {
    items.iter().map(|s| s.to_string()).collect()
}

fn entity(fields: &[(&str, &str)]) -> Entity {
    let mut e = Entity::new();
    for (name, value) in fields {
        e.insert(name.to_string(), FieldValue::Text(value.to_string()));
    }
    e
}

#[test]
fn compile_block_keeps_the_kind_of_each_value() {
    let e = compile_block("{s:'x', n:4.5, h:0x10, b:false, z:null, a:[1,'2'], o:{k:'v'}}")
        .expect("the block is valid");
    assert_eq!(e.len(), 7);
    let value = |name: &str| {
        (0..e.len()).map(|i| e.field(i)).find(|f| f.name == name).map(|f| f.value.clone())
    };
    assert_eq!(value("s"), Some(FieldValue::Text("x".to_string())));
    assert_eq!(value("n"), Some(FieldValue::Number));
    assert_eq!(value("h"), Some(FieldValue::Number));
    assert_eq!(value("b"), Some(FieldValue::Bool(false)));
    assert_eq!(value("z"), Some(FieldValue::Null));
    assert_eq!(value("a"), Some(FieldValue::Array));
    assert_eq!(value("o"), Some(FieldValue::Object));
    assert_eq!(value("k"), None);
}

#[test]
fn compile_block_takes_the_last_value_of_a_repeated_key() {
    let e = compile_block("{a:'1', a:'2'}").expect("the block is valid");
    assert_eq!(e.len(), 1);
    assert_eq!(get_field_by_name(&e, "a"), Some("2".to_string()));
}

#[test]
fn compile_block_refuses_what_is_no_object() {
    assert!(compile_block("").is_none());
    assert!(compile_block("{").is_none());
    assert!(compile_block("{a}").is_none());
    assert!(compile_block("{a:}").is_none());
    assert!(compile_block("[1, 2]").is_none());
    assert!(compile_block("'text'").is_none());
    assert!(compile_block("{a:1} x").is_none());
}

#[test]
fn compile_block_takes_an_empty_object() {
    let e = compile_block("{ }").expect("the block is valid");
    assert_eq!(e.len(), 0);
}

#[test]
fn build_table_pairs_names_and_outcomes_by_place() {
    let names = strings(&["a", "b", "c", "a", "d"]);
    let compiled = vec![
        Some(entity(&[("v", "1")])),
        None,
        Some(entity(&[("v", "3")])),
        Some(entity(&[("v", "4")])),
    ];
    let t = build_table(&names, compiled);
    assert_eq!(t.len(), 2);
    assert_eq!(t.get("a"), Some(&entity(&[("v", "4")])));
    assert!(t.get("b").is_none());
    assert_eq!(t.get("c"), Some(&entity(&[("v", "3")])));
    assert!(t.get("d").is_none());
    assert_eq!(t.entry(0).name, "a");
    assert_eq!(t.entry(1).name, "c");
}

#[test]
fn build_table_drops_outcomes_without_a_name() {
    let names = strings(&["a"]);
    let compiled = vec![Some(entity(&[("v", "1")])), Some(entity(&[("v", "2")]))];
    let t = build_table(&names, compiled);
    assert_eq!(t.len(), 1);
    assert_eq!(t.get("a"), Some(&entity(&[("v", "1")])));
}

#[test]
fn build_table_keeps_an_earlier_entity_where_the_later_block_failed() {
    let names = strings(&["a", "a"]);
    let t = build_table(&names, vec![Some(entity(&[("v", "1")])), None]);
    assert_eq!(t.get("a"), Some(&entity(&[("v", "1")])));
}

#[test]
fn compile_entities_pairs_the_first_block_with_the_first_name() {
    let names = strings(&["a", "b", "c"]);
    let blocks = strings(&["{v:'1'}", "{broken", "{v:'3'}", "{v:'4'}"]);
    let t = compile_entities(&names, &blocks);
    assert_eq!(t.len(), 2);
    assert_eq!(t.get("a"), Some(&entity(&[("v", "1")])));
    assert!(t.get("b").is_none());
    assert_eq!(t.get("c"), Some(&entity(&[("v", "3")])));
}

#[test]
fn object_bank_follows_the_table() {
    let names = strings(&["q", "p"]);
    let compiled = vec![Some(entity(&[("z", "1"), ("y", "2")])), Some(Entity::new())];
    let t = build_table(&names, compiled);
    assert_eq!(
        object_bank(&t),
        vec![
            BankEntry { name: "q".to_string(), fields: strings(&["z", "y"]) },
            BankEntry { name: "p".to_string(), fields: vec![] },
        ]
    );
}
