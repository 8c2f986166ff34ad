use docweave::{compile_block, parse_text, render_text};

fn nested_objects(depth: usize) -> String {
    "{a:".repeat(depth) + "1" + &"}".repeat(depth)
}

fn nested_arrays(depth: usize) -> String {
    "{a:".to_string() + &"[".repeat(depth) + &"]".repeat(depth) + "}"
}

#[test]
fn nested_blocks_compile() {
    assert_eq!(compile_block(&nested_objects(50)).map(|e| e.len()), Some(1));
    assert_eq!(compile_block(&nested_arrays(50)).map(|e| e.len()), Some(1));
}

#[test]
fn a_block_nested_too_deep_for_the_stack_does_not_compile() {
    assert!(compile_block(&nested_objects(1_000_000)).is_none());
    assert!(compile_block(&nested_arrays(1_000_000)).is_none());
}

#[test]
fn a_block_nested_at_any_depth_comes_back() {
    for depth in [1_000usize, 10_000, 100_000] {
        let _ = compile_block(&nested_objects(depth));
        let _ = compile_block(&nested_arrays(depth));
    }
}

#[test]
fn deeply_nested_markdown_is_rendered() {
    for depth in [100usize, 10_000, 200_000] {
        assert!(!render_text(&(">".repeat(depth) + " x"), "md").is_empty());
        assert!(!render_text(&("[".repeat(depth) + "x" + &"]".repeat(depth)), "md").is_empty());
        assert!(!render_text(&("*".repeat(depth) + "x" + &"*".repeat(depth)), "md").is_empty());
    }
    let lists = (0..2000).map(|i| " ".repeat(2 * i) + "- x\n").collect::<String>();
    assert!(!render_text(&lists, "md").is_empty());
}

#[test]
fn long_document_resolves() {
    let doc = "def p {n:\"v\"} ".to_string() + &"@p:n ".repeat(100_000);
    let r = parse_text(&doc);
    assert_eq!(r.text.len(), 2 * 100_000 - 1);
}
