use mdbook_track::{
    humanize_section, item_id, parse_inline_track_items, parse_track_items,
    replace_inline_track_items, replace_track_block, slugify,
};

#[test]
fn parses_tracker_items() {
    let content = r#"# Variables

{{#track}}
- Read the chapter
- Run the example
- Complete Exercise 1
{{/track}}

More text.
"#;

    let items = parse_track_items(content).unwrap().unwrap();
    assert_eq!(items.len(), 3);
    assert_eq!(items[0].label, "Read the chapter");
    assert_eq!(items[2].label, "Complete Exercise 1");
    assert_ne!(items[0].id, items[1].id);
}

#[test]
fn parses_inline_track_items() {
    let content = r#"# Pointers

{{#track-checklist}}

Text.

{{#track-item read-pointers}}
Read the pointers chapter
{{/track-item}}

{{#track-item pointer-exercise}}Complete the pointer exercise{{/track-item}}
"#;

    let items = parse_inline_track_items(content).unwrap();
    assert_eq!(items.len(), 2);
    assert_eq!(items[0].item.id, "read-pointers");
    assert_eq!(items[0].item.label, "Read the pointers chapter");
    assert_eq!(items[1].item.id, "pointer-exercise");
    assert_eq!(items[1].item.label, "Complete the pointer exercise");
}

#[test]
fn rejects_duplicate_inline_ids() {
    let content = r#"{{#track-item same}}One{{/track-item}}
{{#track-item same}}Two{{/track-item}}"#;
    assert!(parse_inline_track_items(content).is_err());
}

#[test]
fn rejects_invalid_inline_id() {
    let content = r#"{{#track-item bad id}}One{{/track-item}}"#;
    assert!(parse_inline_track_items(content).is_err());
}

#[test]
fn replaces_inline_items() {
    let content = "Before\n{{#track-item read}}Read it{{/track-item}}\nAfter";
    let output = replace_inline_track_items(content, "book", "chapter.md").unwrap();
    assert!(output.contains("mdbook-track--inline"));
    assert!(output.contains("data-track-item=\"read\""));
    assert!(output.contains("data-track-book-id=\"book\""));
    assert!(output.contains("data-track-page-id=\"chapter.md\""));
    assert!(!output.contains("{{#track-item"));
}

#[test]
fn replaces_only_tracker_block() {
    let content = "# Title\n\n{{#track}}\n- One\n{{/track}}\n\nBody\n";
    let output = replace_track_block(content, "<tracker></tracker>").unwrap();
    assert_eq!(output, "# Title\n\n<tracker></tracker>\n\nBody\n");
}

#[test]
fn item_ids_are_stable() {
    assert_eq!(item_id("Read the chapter"), item_id("Read the chapter"));
    assert_ne!(item_id("Read the chapter"), item_id("Run the example"));
}

#[test]
fn humanizes_section_directory() {
    assert_eq!(humanize_section("c-programming"), "C Programming");
    assert_eq!(humanize_section("python"), "Python");
    assert_eq!(humanize_section("network_routing"), "Network Routing");
}

#[test]
fn slugifies_book_title() {
    assert_eq!(
        slugify("ELEE1147: Programming for Engineers"),
        "elee1147-programming-for-engineers"
    );
}
