use docweave::{scan_declarations, Scan};

fn strings(items: &[&str]) -> Vec<String> {
    items.iter().map(|s| s.to_string()).collect()
}

fn parts(segments: &[&str], names: &[&str], blocks: &[&str]) -> Scan {
    Scan { segments: strings(segments), names: strings(names), blocks: strings(blocks) }
}

#[test]
fn scan_of_an_empty_document() {
    assert_eq!(scan_declarations(""), parts(&["\n"], &[], &[]));
}

#[test]
fn scan_of_plain_text_is_one_trimmed_segment() {
    assert_eq!(scan_declarations("  a {b} c  "), parts(&["a {b} c\n"], &[], &[]));
}

#[test]
fn scan_cuts_a_declaration_out_of_the_text() {
    assert_eq!(
        scan_declarations("Hello def p {name:\"Ann\"} Dear @p:name^, bye."),
        parts(&["Hello", "Dear @p:name^, bye.\n"], &["p"], &["{name:\"Ann\"}"])
    );
}

#[test]
fn scan_drops_an_empty_segment_before_a_block() {
    assert_eq!(
        scan_declarations("  def a {x:1} z"),
        parts(&["z\n"], &["a"], &["{x:1}"])
    );
}

#[test]
fn scan_keeps_nested_braces_in_one_block() {
    assert_eq!(
        scan_declarations("def a {x:{y:{z:1}}, w:2}!"),
        parts(&["!\n"], &["a"], &["{x:{y:{z:1}}, w:2}"])
    );
}

#[test]
fn scan_reads_blocks_one_after_another() {
    assert_eq!(
        scan_declarations("def a {1}{2} {3}"),
        parts(&["{3}\n"], &["a"], &["{1}", "{2}"])
    );
}

#[test]
fn scan_keeps_the_name_of_a_declaration_without_a_block() {
    assert_eq!(
        scan_declarations("def a x def b {1}"),
        parts(&["def a x", "\n"], &["a", "b"], &["{1}"])
    );
}

#[test]
fn scan_ends_a_name_at_a_space_only() {
    assert_eq!(
        scan_declarations("def a\tb {1}"),
        parts(&["\n"], &["a\tb"], &["{1}"])
    );
    assert_eq!(scan_declarations("def  {1}"), parts(&["\n"], &[""], &["{1}"]));
}

#[test]
fn scan_returns_a_failed_keyword_to_the_text() {
    assert_eq!(scan_declarations("a dex b"), parts(&["a dex b\n"], &[], &[]));
    assert_eq!(scan_declarations("ddef a {1}"), parts(&["ddef a {1}\n"], &[], &[]));
    assert_eq!(scan_declarations("de"), parts(&["de\n"], &[], &[]));
    assert_eq!(scan_declarations("a def b"), parts(&["a def b\n"], &[], &[]));
    assert_eq!(scan_declarations("a def b "), parts(&["a def b\n"], &["b"], &[]));
}

#[test]
fn scan_keeps_an_unterminated_block_as_far_as_it_came() {
    assert_eq!(
        scan_declarations("x def a {y:{z:1}"),
        parts(&["x"], &["a"], &["{y:{z:1}"])
    );
}

#[test]
fn scan_takes_a_closing_brace_outside_a_block_as_text() {
    assert_eq!(
        scan_declarations("} def a {1}} rest"),
        parts(&["}", "} rest\n"], &["a"], &["{1}"])
    );
}
