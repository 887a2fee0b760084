use mdbook_track::{
    chapter_page_id, chapter_section, collect_page_items, configured_book_id, escape_attr,
    escape_html, escape_script_json, humanize_section, item_id, normalise_label, normalize_path,
    page_manifest, page_manifests, parse_inline_track_items, parse_track_items, process_chapter,
    render_inline_tracker, render_item_row, render_overview, render_tracker,
    replace_inline_track_items, replace_track_block, slugify, validate_track_item_id, Chapter,
    TrackError, TrackItem, TrackPreprocessor,
};

fn fnv(s: &str) -> u64 {
    let mut h: u64 = 0xcbf29ce484222325;
    for b in s.as_bytes() {
        h ^= *b as u64;
        h = h.wrapping_mul(0x100000001b3);
    }
    h
}

fn item(id: &str, label: &str) -> TrackItem {
    TrackItem { id: id.to_string(), label: label.to_string() }
}

fn chapter(content: &str, path: Option<&[&str]>) -> Chapter {
    Chapter {
        name: "Chapter".to_string(),
        content: content.to_string(),
        source_path: path.map(|p| p.iter().map(|s| s.to_string()).collect()),
        path: None,
        parent_names: Vec::new(),
    }
}

#[test]
fn item_id_is_slug_and_hash() {
    let label = "Read the chapter";
    assert_eq!(item_id(label), format!("read-the-chapter-{:08x}", fnv(label)));
    assert_eq!(item_id("Hello"), format!("hello-{:08x}", fnv("Hello")));
}

#[test]
fn item_id_of_symbols_is_item() {
    assert_eq!(item_id("!!!"), format!("item-{:08x}", fnv("!!!")));
}

#[test]
fn item_id_cuts_long_slugs_and_trailing_dash() {
    let label = "aaaaaaaaaaaaaaaaaaaaaaaaaaaaaaa bbbb";
    // the slug is 31 'a', a dash, then "bbbb": cut at 32 it ends with the dash
    let id = item_id(label);
    assert_eq!(id, format!("aaaaaaaaaaaaaaaaaaaaaaaaaaaaaaa-{:08x}", fnv(label)));
}

#[test]
fn item_id_hex_is_lower_case_and_padded() {
    let id = item_id("x");
    let hex = &id[2..];
    assert!(hex.len() >= 8);
    assert!(hex.chars().all(|c| c.is_ascii_digit() || ('a'..='f').contains(&c)));
    assert_eq!(hex, format!("{:08x}", fnv("x")));
}

#[test]
fn slugify_cases() {
    assert_eq!(slugify(""), "");
    assert_eq!(slugify("--A--b--"), "a-b");
    assert_eq!(slugify("Ünïcode Text"), "n-code-text");
    assert_eq!(slugify("C++ & Rust"), "c-rust");
}

#[test]
fn humanize_cases() {
    assert_eq!(humanize_section("--a__b-"), "A B");
    assert_eq!(humanize_section(""), "");
    assert_eq!(humanize_section("über-straße"), "Über Straße");
    assert_eq!(humanize_section("ßx"), "SSx");
}

#[test]
fn normalise_label_cases() {
    assert_eq!(normalise_label("  Read \n the\tchapter  "), "Read the chapter");
    assert_eq!(normalise_label(" \n "), "");
}

#[test]
fn validate_ids() {
    assert!(validate_track_item_id("read-pointers_1.2").is_ok());
    assert!(matches!(validate_track_item_id(""), Err(TrackError::MissingItemId)));
    match validate_track_item_id("bad id") {
        Err(TrackError::InvalidItemId(id)) => assert_eq!(id, "bad id"),
        other => panic!("unexpected {:?}", other),
    }
}

#[test]
fn track_block_absent_unclosed_empty() {
    assert!(matches!(parse_track_items("no block"), Ok(None)));
    assert!(matches!(parse_track_items("{{#track}}\n- a\n"), Err(TrackError::UnclosedTracker)));
    assert!(matches!(parse_track_items("{{#track}}\n  \n\n{{/track}}"), Err(TrackError::EmptyTracker)));
}

#[test]
fn track_block_bullets_and_duplicates() {
    let items = parse_track_items("{{#track}}\n* Same\n- Same\nSame\r\n  plain text  \n{{/track}}")
        .unwrap()
        .unwrap();
    assert_eq!(items.len(), 4);
    let base = item_id("Same");
    assert_eq!(items[0].id, base);
    assert_eq!(items[1].id, format!("{}-2", base));
    assert_eq!(items[2].id, format!("{}-3", base));
    assert_eq!(items[3].label, "plain text");
    assert_eq!(items[0].label, "Same");
}

#[test]
fn track_block_only_first() {
    let items = parse_track_items("{{#track}}\n- a\n{{/track}}\n{{#track}}\n- b\n{{/track}}")
        .unwrap()
        .unwrap();
    assert_eq!(items.len(), 1);
    assert_eq!(items[0].label, "a");
}

#[test]
fn inline_errors() {
    assert!(matches!(
        parse_inline_track_items("{{#track-item }}x{{/track-item}}"),
        Err(TrackError::MissingItemId)
    ));
    assert!(matches!(
        parse_inline_track_items("{{#track-item a"),
        Err(TrackError::UnterminatedItem)
    ));
    match parse_inline_track_items("{{#track-item a}} label") {
        Err(TrackError::UnclosedItem(id)) => assert_eq!(id, "a"),
        other => panic!("unexpected {:?}", other),
    }
    match parse_inline_track_items("{{#track-item a}} \n {{/track-item}}") {
        Err(TrackError::EmptyItemLabel(id)) => assert_eq!(id, "a"),
        other => panic!("unexpected {:?}", other),
    }
    match parse_inline_track_items("{{#track-item a}}x{{/track-item}}{{#track-item  a }}y{{/track-item}}") {
        Err(TrackError::DuplicateInlineId(id)) => assert_eq!(id, "a"),
        other => panic!("unexpected {:?}", other),
    }
}

#[test]
fn inline_positions_count_bytes() {
    let content = "é {{#track-item a}}x{{/track-item}} z";
    let items = parse_inline_track_items(content).unwrap();
    assert_eq!(items.len(), 1);
    assert_eq!(items[0].start, 3);
    assert_eq!(items[0].end, 3 + "{{#track-item a}}x{{/track-item}}".len());
    assert_eq!(&content[items[0].start..items[0].end], "{{#track-item a}}x{{/track-item}}");
}

#[test]
fn missing_id_message() {
    assert_eq!(
        TrackError::MissingItemId.message(),
        "track-item requires a stable id, for example {#track-item read-pointers}"
    );
}

#[test]
fn collect_items_and_duplicates() {
    let content = "{{#track}}\n- One\n{{/track}}\n{{#track-item two}}Two{{/track-item}}";
    let items = collect_page_items(content).unwrap();
    assert_eq!(items.len(), 2);
    assert_eq!(items[0].label, "One");
    assert_eq!(items[1].id, "two");

    let one = item_id("One");
    let clash = format!("{{{{#track}}}}\n- One\n{{{{/track}}}}\n{{{{#track-item {}}}}}Again{{{{/track-item}}}}", one);
    match collect_page_items(&clash) {
        Err(TrackError::DuplicateItemId(id)) => assert_eq!(id, one),
        other => panic!("unexpected {:?}", other),
    }
}

#[test]
fn escapes() {
    assert_eq!(escape_html("a&b<c>d\"e'f"), "a&amp;b&lt;c&gt;d&quot;e&#39;f");
    assert_eq!(escape_attr("<"), "&lt;");
    assert_eq!(escape_script_json("{\"a\":\"</script>\"}"), "{\"a\":\"\\u003c/script>\"}");
}

#[test]
fn renders_row_exactly() {
    let row = render_item_row("b&", "p", &item("i", "L<"));
    let expected = format!(
        r#"
<li class="mdbook-track__item"><label><input type="checkbox" data-track-item="{}" data-track-book-id="{}" data-track-page-id="{}"><span class="mdbook-track__checkbox" aria-hidden="true"></span><span class="mdbook-track__label">{}</span></label></li>"#,
        "i", "b&amp;", "p", "L&lt;"
    );
    assert_eq!(row, expected);
}

#[test]
fn renders_inline_exactly() {
    let it = item("i", "L");
    let out = render_inline_tracker("b", "p", &it);
    let expected = format!(
        r#"<div class="mdbook-track mdbook-track--inline" data-book-id="{}" data-page-id="{}" data-track-items="{}">
<ul class="mdbook-track__items">{}
</ul>
</div>"#,
        "b", "p", "i", render_item_row("b", "p", &it)
    );
    assert_eq!(out, expected);
}

#[test]
fn renders_tracker_exactly() {
    let items = vec![item("a", "A"), item("b", "B")];
    let out = render_tracker("book", "page.md", &items);
    let mut expected = format!(
        r#"<section class="mdbook-track mdbook-track--checklist" data-book-id="{}" data-page-id="{}" data-track-items="{}">
<div class="mdbook-track__header">
<strong>Chapter checklist</strong>
<span class="mdbook-track__count" aria-live="polite">0 / {} completed</span>
</div>
<ul class="mdbook-track__items">"#,
        "book", "page.md", "a,b", 2
    );
    for it in &items {
        expected.push_str(&render_item_row("book", "page.md", it));
    }
    expected.push_str("\n</ul>\n</section>");
    assert_eq!(out, expected);
}

#[test]
fn renders_overview_exactly() {
    let out = render_overview("bk", "[\"<x>\"]");
    let expected = format!(
        r#"<section class="mdbook-track-overview" data-book-id="{}">
<div class="mdbook-track-overview__content">Loading progress…</div>
</section>
<script type="application/json" class="mdbook-track-manifest">{}</script>"#,
        "bk", "[\"\\u003cx>\"]"
    );
    assert_eq!(out, expected);
}

#[test]
fn replace_block_cases() {
    assert_eq!(replace_track_block("plain", "X").unwrap(), "plain");
    assert!(matches!(replace_track_block("{{#track}} open", "X"), Err(TrackError::UnclosedTracker)));
}

#[test]
fn replace_inline_keeps_text_between() {
    let content = "A{{#track-item x}}one{{/track-item}}B{{#track-item y}}two{{/track-item}}C";
    let out = replace_inline_track_items(content, "b", "p").unwrap();
    let expected = format!(
        "A{}B{}C",
        render_inline_tracker("b", "p", &item("x", "one")),
        render_inline_tracker("b", "p", &item("y", "two"))
    );
    assert_eq!(out, expected);
    assert_eq!(replace_inline_track_items("none", "b", "p").unwrap(), "none");
}

#[test]
fn page_ids_and_sections() {
    let ch = chapter("", Some(&["c-programming", "variables.md"]));
    assert_eq!(chapter_page_id(&ch).unwrap(), "c-programming/variables.md");
    assert_eq!(chapter_section(&ch), "C Programming");
    let top = chapter("", Some(&["intro.md"]));
    assert_eq!(chapter_section(&top), "Other");
    let dot = chapter("", Some(&[".", "intro.md"]));
    assert_eq!(chapter_section(&dot), "Other");
    let mut parent = chapter("", Some(&["python", "modules.md"]));
    parent.parent_names = vec!["Part One".to_string()];
    assert_eq!(chapter_section(&parent), "Part One");
    let none = chapter("", None);
    assert!(matches!(chapter_page_id(&none), Err(TrackError::NoSourcePath)));
    assert_eq!(chapter_section(&none), "Other");
    let mut by_path = chapter("", None);
    by_path.path = Some(vec!["a".to_string(), "b.md".to_string()]);
    assert_eq!(chapter_page_id(&by_path).unwrap(), "a/b.md");
    assert_eq!(normalize_path(&vec!["x".to_string(), "y".to_string(), "z.md".to_string()]), "x/y/z.md");
}

#[test]
fn book_ids() {
    assert_eq!(configured_book_id(Some("  my-book "), None).unwrap(), "my-book");
    assert!(matches!(configured_book_id(Some("   "), None), Err(TrackError::EmptyBookId)));
    assert_eq!(
        configured_book_id(None, Some(" ELEE1147: Programming for Engineers ")).unwrap(),
        "elee1147-programming-for-engineers"
    );
    assert_eq!(configured_book_id(None, None).unwrap(), "mdbook");
    assert_eq!(configured_book_id(None, Some("!!!")).unwrap(), "mdbook");
}

#[test]
fn manifests() {
    let with_block = chapter("{{#track}}\n- One\n{{/track}}", Some(&["python", "a.md"]));
    let page = page_manifest(&with_block).unwrap().unwrap();
    assert_eq!(page.id, "python/a.md");
    assert_eq!(page.title, "Chapter");
    assert_eq!(page.section, "Python");
    assert_eq!(page.items.len(), 1);
    assert!(page_manifest(&chapter("plain", None)).unwrap().is_none());
    let pathless = chapter("{{#track}}\n- One\n{{/track}}", None);
    assert!(matches!(page_manifest(&pathless), Err(TrackError::NoSourcePath)));

    let chapters = vec![with_block, chapter("plain", None), pathless];
    let (pages, errors) = page_manifests(&chapters);
    assert_eq!(pages.len(), 1);
    assert_eq!(errors.len(), 1);
}

#[test]
fn process_full_chapter() {
    let content = "# T\n{{#track}}\n- One\n{{/track}}\n{{#track-checklist}}\n{{#track-item two}}Two{{/track-item}}\n{{#track-overview}}\n";
    let mut ch = chapter(content, Some(&["a.md"]));
    process_chapter(&mut ch, "bk", "[]").unwrap();
    let block = render_tracker("bk", "a.md", &vec![item(&item_id("One"), "One")]);
    let checklist = render_tracker("bk", "a.md", &vec![item("two", "Two")]);
    let inline = render_inline_tracker("bk", "a.md", &item("two", "Two"));
    let overview = render_overview("bk", "[]");
    assert_eq!(ch.content, format!("# T\n{}\n{}\n{}\n{}\n", block, checklist, inline, overview));
}

#[test]
fn process_plain_chapter_unchanged() {
    let mut ch = chapter("nothing to see {{#tracking}}", None);
    process_chapter(&mut ch, "bk", "[]").unwrap();
    assert_eq!(ch.content, "nothing to see {{#tracking}}");
}

#[test]
fn process_errors() {
    let mut no_items = chapter("{{#track-checklist}}", Some(&["a.md"]));
    assert!(matches!(process_chapter(&mut no_items, "b", "[]"), Err(TrackError::ChecklistWithoutItems)));
    let mut no_path = chapter("{{#track-item a}}x{{/track-item}}", None);
    assert!(matches!(process_chapter(&mut no_path, "b", "[]"), Err(TrackError::ItemWithoutPath)));
    assert_eq!(no_path.content, "{{#track-item a}}x{{/track-item}}");
    // a block without a path is left as it is
    let mut block = chapter("{{#track}}\n- a\n{{/track}}", None);
    process_chapter(&mut block, "b", "[]").unwrap();
    assert_eq!(block.content, "{{#track}}\n- a\n{{/track}}");
}

#[test]
fn checklist_without_path_keeps_rendered_items() {
    let mut ch = chapter("{{#track-checklist}}", None);
    ch.content = "{{#track-checklist}}".to_string();
    assert!(matches!(process_chapter(&mut ch, "b", "[]"), Err(TrackError::ChecklistWithoutItems)));
}

#[test]
fn messages() {
    assert_eq!(
        TrackError::UnclosedTracker.message(),
        "found {{#track}} without matching {{/track}}"
    );
    assert_eq!(
        TrackError::InvalidItemId("bad id".to_string()).message(),
        "invalid track-item id 'bad id'; use only letters, numbers, '-', '_' or '.'"
    );
    assert_eq!(
        TrackError::UnclosedItem("a".to_string()).message(),
        "track-item 'a' has no matching {{/track-item}}"
    );
    assert_eq!(
        TrackError::DuplicateItemId("x".to_string()).message(),
        "duplicate track item id 'x'"
    );
}

#[test]
fn preprocessor_identity() {
    let p = TrackPreprocessor::new();
    assert_eq!(p.name(), "track");
    assert!(p.supports_renderer("html"));
    assert!(!p.supports_renderer("markdown"));
}

#[test]
fn checklist_and_inline_share_row() {
    let it = item("read", "Read it");
    let row = render_item_row("b", "p", &it);
    assert!(render_tracker("b", "p", &vec![item("x", "X"), item("read", "Read it")]).contains(&row));
    assert!(render_inline_tracker("b", "p", &it).contains(&row));
}

#[test]
fn block_ids_are_distinct_and_valid() {
    let items = parse_track_items("{{#track}}\n- A\n- A\n- a\n- A-2\n{{/track}}").unwrap().unwrap();
    for (i, a) in items.iter().enumerate() {
        assert!(validate_track_item_id(&a.id).is_ok());
        for b in items.iter().skip(i + 1) {
            assert_ne!(a.id, b.id);
        }
    }
}

#[test]
fn bullet_lines() {
    let items = parse_track_items("{{#track}}\n-  spaced\n -\n*\tx\n{{/track}}").unwrap().unwrap();
    assert_eq!(items.len(), 3);
    assert_eq!(items[0].label, "spaced");
    assert_eq!(items[1].label, "-");
    assert_eq!(items[2].label, "*\tx");
}

#[test]
fn many_duplicates_get_decimal_suffixes() {
    let mut content = String::from("{{#track}}\n");
    for _ in 0..12 {
        content.push_str("- Same\n");
    }
    content.push_str("{{/track}}");
    let items = parse_track_items(&content).unwrap().unwrap();
    let base = item_id("Same");
    assert_eq!(items[0].id, base);
    assert_eq!(items[9].id, format!("{}-10", base));
    assert_eq!(items[11].id, format!("{}-12", base));
}

#[test]
fn plain_chapter_law_example() {
    let text = "# Plain\n\nNo directives here, only {{#title x}}.\n";
    let mut ch = chapter(text, Some(&["a.md"]));
    assert!(process_chapter(&mut ch, "b", "{}").is_ok());
    assert_eq!(ch.content, text);
}

#[test]
fn label_edit_keeps_ids() {
    let before = "{{#track-item read}}Read it{{/track-item}}\n{{#track-item run}}Run it{{/track-item}}";
    let after = "{{#track-item read}}Read the whole chapter\n carefully{{/track-item}}\n{{#track-item run}}Run it{{/track-item}}";
    let a = parse_inline_track_items(before).unwrap();
    let b = parse_inline_track_items(after).unwrap();
    assert_eq!(a.len(), b.len());
    for (x, y) in a.iter().zip(b.iter()) {
        assert_eq!(x.item.id, y.item.id);
    }
    assert_eq!(b[0].item.label, "Read the whole chapter carefully");
    assert_eq!(b[1].item.label, "Run it");
}

#[test]
fn labels_are_normalised() {
    let items = parse_inline_track_items("{{#track-item a}}\u{a0} x \t\n y\u{3000}{{/track-item}}").unwrap();
    assert_eq!(items[0].item.label, "x y");
}

#[test]
fn humanize_twice_is_once_for_ascii() {
    for value in ["c-programming", "network_routing", "--a__b-", "Already Title", "x1-y2", ""] {
        let once = humanize_section(value);
        assert!(!once.contains('-') && !once.contains('_'));
        assert_eq!(humanize_section(&once), once);
    }
}

fn decode_entities(e: &str) -> String {
    let mut out = String::new();
    let mut rest = e;
    while let Some(c) = rest.chars().next() {
        let mut matched = false;
        for (entity, ch) in [("&amp;", '&'), ("&lt;", '<'), ("&gt;", '>'), ("&quot;", '"'), ("&#39;", '\'')] {
            if rest.starts_with(entity) {
                out.push(ch);
                rest = &rest[entity.len()..];
                matched = true;
                break;
            }
        }
        if !matched {
            out.push(c);
            rest = &rest[c.len_utf8()..];
        }
    }
    out
}

#[test]
fn escaped_html_decodes_back() {
    for s in ["a&b<c>d\"e'f", "&amp;", "plain é", "&&<<", ""] {
        let e = escape_html(s);
        assert!(!e.contains('<') && !e.contains('>') && !e.contains('"') && !e.contains('\''));
        assert_eq!(decode_entities(&e), s);
    }
}
