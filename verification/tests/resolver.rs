use docweave::resolver::is_forbidden_char;
use docweave::{resolve_references, substitute, Entity, EntityTable, FieldValue};

fn table() -> EntityTable {
    let mut p = Entity::new();
    p.insert("name".to_string(), FieldValue::Text("ann lee".to_string()));
    p.insert("age".to_string(), FieldValue::Number);
    p.insert("p".to_string(), FieldValue::Text("itself".to_string()));
    let mut t = EntityTable::new();
    t.insert("p".to_string(), p);
    t
}

fn strings(items: &[&str]) -> Vec<String> {
    items.iter().map(|s| s.to_string()).collect()
}

fn id(s: &str) -> Vec<char> {
    s.chars().collect()
}

#[test]
fn substitute_gives_the_text_of_the_field() {
    let t = table();
    assert_eq!(substitute(&t, &id("p:name"), Some(' ')), "ann lee");
    assert_eq!(substitute(&t, &id("p:name"), Some(',')), "ann lee");
    assert_eq!(substitute(&t, &id("p:name"), None), "ann lee");
    assert_eq!(substitute(&t, &id("p"), None), "itself");
}

#[test]
fn substitute_changes_the_case_after_a_modifier() {
    let t = table();
    assert_eq!(substitute(&t, &id("p:name"), Some('^')), "Ann lee");
    assert_eq!(substitute(&t, &id("p:name"), Some('!')), "Ann Lee");
}

#[test]
fn substitute_gives_the_placeholder_for_what_it_cannot_resolve() {
    let t = table();
    assert_eq!(substitute(&t, &id("q:name"), Some(' ')), "*unknown*");
    assert_eq!(substitute(&t, &id("p:town"), Some(' ')), "*unknown*");
    assert_eq!(substitute(&t, &id("p:age"), Some('^')), "*unknown*");
    assert_eq!(substitute(&t, &id(""), None), "*unknown*");
    assert_eq!(substitute(&t, &id(":"), Some('!')), "*unknown*");
}

#[test]
fn substitute_reads_the_first_and_the_last_part_of_an_id() {
    let t = table();
    assert_eq!(substitute(&t, &id("p:skipped:name"), None), "ann lee");
    assert_eq!(substitute(&t, &id("p:"), None), "*unknown*");
    assert_eq!(substitute(&t, &id(":name"), None), "*unknown*");
}

#[test]
fn resolve_joins_segments_with_a_space() {
    let t = table();
    assert_eq!(resolve_references(&strings(&["one", "two", "three\n"]), &t), "one two three");
    assert_eq!(resolve_references(&strings(&[]), &t), "");
    assert_eq!(resolve_references(&strings(&["  alone  "]), &t), "alone");
}

#[test]
fn resolve_takes_the_end_of_the_text_as_the_end_of_a_reference() {
    let t = table();
    assert_eq!(resolve_references(&strings(&["I am @p:name"]), &t), "I am ann lee");
    assert_eq!(resolve_references(&strings(&["@nobody"]), &t), "*unknown*");
}

#[test]
fn resolve_ends_a_reference_at_whitespace_and_forbidden_characters() {
    let t = table();
    assert_eq!(
        resolve_references(&strings(&["@p:name\t@p:name.@p:name) (@p:name]"]), &t),
        "ann lee\tann lee.ann lee) (ann lee]"
    );
    assert_eq!(resolve_references(&strings(&["@p:name\u{a0}x"]), &t), "ann lee\u{a0}x");
    assert_eq!(resolve_references(&strings(&["@p-x_y:name{z} ok"]), &t), "*unknown* ok");
}

#[test]
fn resolve_keeps_an_escaped_character_in_a_segment() {
    let t = table();
    assert_eq!(resolve_references(&strings(&["a\\", "b"]), &t), "a b");
    assert_eq!(resolve_references(&strings(&["\\@p:name \\\\ \\!"]), &t), "@p:name  !");
}

#[test]
fn forbidden_characters_are_those_of_the_list() {
    for c in ",.<>!@#$%^&*()[]|\\;'\"?/`~+=".chars() {
        assert!(is_forbidden_char(c), "{} ends an id", c);
    }
    for c in "abzAZ09:-_{} \n".chars() {
        assert!(!is_forbidden_char(c), "{:?} is no forbidden character", c);
    }
}
