use docweave::{parse_text, BankEntry};

fn names(fields: &[&str]) -> Vec<String> {
    fields.iter().map(|f| f.to_string()).collect()
}

#[test]
fn resolves_the_reference_of_a_declared_entity() {
    let r = parse_text("Hello def p {name:\"Ann\"} Dear @p:name^, bye.");
    assert_eq!(r.text, "Hello Dear Ann, bye.");
    assert_eq!(
        r.object_bank,
        vec![BankEntry { name: "p".to_string(), fields: names(&["name"]) }]
    );
}

#[test]
fn object_bank_lists_the_fields_of_an_entity() {
    let r = parse_text("def a {x:1,y:2}");
    assert_eq!(r.object_bank.len(), 1);
    assert_eq!(r.object_bank[0].name, "a");
    let mut fields = r.object_bank[0].fields.clone();
    fields.sort();
    assert_eq!(fields, names(&["x", "y"]));
    assert_eq!(r.text, "");
}

#[test]
fn object_bank_of_a_document_without_entities_is_empty() {
    assert!(parse_text("").object_bank.is_empty());
    assert!(parse_text("no data here").object_bank.is_empty());
}

#[test]
fn text_without_declarations_comes_back_trimmed() {
    let r = parse_text("  plain words, and {braces} too \n");
    assert_eq!(r.text, "plain words, and {braces} too");
    assert!(r.object_bank.is_empty());
}

#[test]
fn a_started_keyword_in_the_text_stays_in_the_text() {
    assert_eq!(parse_text("bed and breakfast").text, "bed and breakfast");
    assert_eq!(parse_text("defx and dd").text, "defx and dd");
    assert_eq!(parse_text("undefined terms").text, "undefined terms");
}

#[test]
fn a_started_keyword_at_the_end_stays_in_the_text() {
    assert_eq!(parse_text("word").text, "word");
    assert_eq!(parse_text("bed").text, "bed");
    assert_eq!(parse_text("code").text, "code");
    assert_eq!(parse_text("abc def").text, "abc def");
    assert_eq!(parse_text("dd").text, "dd");
    assert_eq!(parse_text("undefined").text, "undefined");
    assert_eq!(parse_text("ad d").text, "ad d");
    assert_eq!(parse_text("ad").text, "ad");
}

#[test]
fn a_declaration_without_a_block_stays_in_the_text() {
    assert_eq!(parse_text("see def a here").text, "see def a here");
}

#[test]
fn a_declaration_that_the_end_cuts_short_stays_in_the_text() {
    assert_eq!(parse_text("see def a").text, "see def a");
    assert_eq!(parse_text("see def a ").text, "see def a");
    assert!(parse_text("see def a ").object_bank.is_empty());
}

#[test]
fn resolving_a_text_that_ends_in_a_started_keyword_twice_changes_nothing() {
    for doc in ["word", "ad d", " bed ", "abc def", "de", "d"] {
        let once = parse_text(doc).text;
        assert_eq!(once, doc.trim());
        assert_eq!(parse_text(&once).text, once);
    }
}

#[test]
fn resolving_plain_text_twice_changes_nothing() {
    let once = parse_text("  some {plain} text: 1 + 1 = 2  ").text;
    assert_eq!(once, "some {plain} text: 1 + 1 = 2");
    assert_eq!(parse_text(&once).text, once);
}

#[test]
fn each_reference_is_substituted_once() {
    let r = parse_text("def p {name:\"Ann\", town:\"York\"} @p:name of @p:town, @p:name again.");
    assert_eq!(r.text, "Ann of York, Ann again.");
}

#[test]
fn positional_pairing_goes_by_order_not_adjacency() {
    let r = parse_text("def a x def b {v:\"1\"}{v:\"2\"} @a:v @b:v");
    assert_eq!(r.text, "def a x 1 2");
    assert_eq!(
        r.object_bank,
        vec![
            BankEntry { name: "a".to_string(), fields: names(&["v"]) },
            BankEntry { name: "b".to_string(), fields: names(&["v"]) },
        ]
    );
}

#[test]
fn an_earlier_name_without_a_block_takes_the_block() {
    let r = parse_text("def x y def p {name:\"Ann\"} @p:name and @x:name");
    assert_eq!(r.text, "def x y *unknown* and Ann");
    assert_eq!(
        r.object_bank,
        vec![BankEntry { name: "x".to_string(), fields: names(&["name"]) }]
    );
}

#[test]
fn a_block_without_a_name_is_dropped() {
    let r = parse_text("def a {v:\"1\"}{v:\"2\"} @a:v");
    assert_eq!(r.text, "1");
    assert_eq!(r.object_bank.len(), 1);
}

#[test]
fn case_transforms_follow_the_terminator() {
    let r = parse_text("def p {n:\"foo bar\"} @p:n^ @p:n! @p:n done");
    assert_eq!(r.text, "Foo bar Foo Bar foo bar done");
}

#[test]
fn unknown_reference_gives_the_placeholder() {
    let r = parse_text("see @missing:field here");
    assert_eq!(r.text, "see *unknown* here");
}

#[test]
fn unknown_field_and_field_without_text_give_the_placeholder() {
    let r = parse_text(
        "def p {n:1, l:[1], o:{a:1}, t:true, z:null, s:\"ok\"} @p:n @p:l @p:o @p:t @p:z @p:q @p:s",
    );
    assert_eq!(
        r.text,
        "*unknown* *unknown* *unknown* *unknown* *unknown* *unknown* ok"
    );
    assert_eq!(r.object_bank.len(), 1);
    let mut fields = r.object_bank[0].fields.clone();
    fields.sort();
    assert_eq!(fields, names(&["l", "n", "o", "s", "t", "z"]));
}

#[test]
fn reference_without_a_colon_names_entity_and_field_alike() {
    let r = parse_text("def x {x:\"self\", y:\"other\"} @x and @x:y");
    assert_eq!(r.text, "self and other");
}

#[test]
fn escaped_at_sign_stays_literal() {
    let r = parse_text("mail me \\@home now");
    assert_eq!(r.text, "mail me @home now");
}

#[test]
fn escaped_markers_stay_literal_and_bare_ones_are_dropped() {
    assert_eq!(parse_text("wow\\! 2\\^3").text, "wow! 2^3");
    assert_eq!(parse_text("wow! 2^3").text, "wow 23");
}

#[test]
fn modifiers_are_dropped_from_text_without_references() {
    assert_eq!(parse_text(" a^b! c ").text, "ab c");
    assert_eq!(parse_text("^ a {b}! ").text, "a {b}");
    assert_eq!(parse_text("de^f x").text, "def x");
    assert_eq!(parse_text("!^").text, "");
}

#[test]
fn consecutive_backslashes_vanish() {
    assert_eq!(parse_text("a\\\\b").text, "ab");
    assert_eq!(parse_text("a\\\\\\b").text, "ab");
    assert_eq!(parse_text("a\\\\@b c").text, "a@b c");
    assert_eq!(parse_text("a\\\\\\\\ x").text, "a x");
    assert_eq!(parse_text("tail\\").text, "tail");
}

#[test]
fn a_backslash_ends_a_reference_and_escapes_what_follows() {
    let r = parse_text("def p {n:\"Ann\"} @p:n\\^ and @p:n\\@");
    assert_eq!(r.text, "Ann^ and Ann@");
}

#[test]
fn an_at_sign_ends_a_reference_and_starts_the_next() {
    let r = parse_text("def p {n:\"Ann\", m:\"Bo\"} @p:n@p:m.");
    assert_eq!(r.text, "AnnBo.");
}

#[test]
fn a_reference_ends_with_its_segment() {
    let r = parse_text("from @p:n def p {n:\"Ann\"} on");
    assert_eq!(r.text, "from Ann on");
}

#[test]
fn a_later_declaration_of_a_name_overwrites_the_earlier() {
    let r = parse_text("def a {v:\"1\"} def a {v:\"2\", w:\"3\"} @a:v@a:w");
    assert_eq!(r.text, "23");
    assert_eq!(r.object_bank.len(), 1);
    assert_eq!(r.object_bank[0].name, "a");
}

#[test]
fn a_block_that_does_not_compile_is_dropped() {
    let r = parse_text("def a {oops} say @a:v");
    assert_eq!(r.text, "say *unknown*");
    assert!(r.object_bank.is_empty());
}

#[test]
fn an_unterminated_block_is_kept_as_data() {
    let r = parse_text("Hi def a {x:\"1\" and @a:x");
    assert_eq!(r.text, "Hi");
    assert!(r.object_bank.is_empty());
}

#[test]
fn braces_are_counted_in_strings_too() {
    let r = parse_text("def a {v:\"}\"} rest");
    assert_eq!(r.text, "\"} rest");
    assert!(r.object_bank.is_empty());
}

#[test]
fn relaxed_data_syntax_compiles() {
    let r = parse_text(
        "def p {\n  // who\n  'first name': 'Ann', /* where */ town: \"York\",\n} @p:town^",
    );
    assert_eq!(r.text, "York");
    assert_eq!(r.object_bank.len(), 1);
    let mut fields = r.object_bank[0].fields.clone();
    fields.sort();
    assert_eq!(fields, names(&["first name", "town"]));
}

#[test]
fn text_beyond_ascii_passes_through() {
    let r = parse_text("def p {n:\"Zoë\"} Grüße, @p:n — ça va?");
    assert_eq!(r.text, "Grüße, Zoë — ça va?");
}

#[test]
fn a_resolved_value_is_not_resolved_again() {
    let r = parse_text("def p {n:\"@q:m\"} def q {m:\"deep\"} @p:n @q:m");
    assert_eq!(r.text, "@q:m deep");
}
