//! Notes: Markdown outlines, frontmatter, inline fields, tags and values.

use traces::field::yaml::YamlValue;
use traces::note::byte::{ByteRange, ByteSource};
use traces::note::document::{parse_markdown, Note};
use traces::note::events::{EventKind, MarkdownEvent};
use traces::note::inline::{extract_inline_fields, extract_tags, parse_inline_value_str};
use traces::note::metadata::{
    FieldSource, Frontmatter, InlineFieldForm, MetadataField, RawFrontmatter,
};
use traces::note::parser::{outline_events, parse_outline, TextStyle};
use traces::note::structure::{
    CodeRegion, LinkType, List, ListItem, Outlink, Tag, TaskStatus,
};
use traces::note::texts::{metadata_texts, parse_metadata_texts, scan_fields, scan_tags};
use traces::note::value::{is_iso_date, FieldValue};
use traces::number::{Number, NumberWords};
use traces::path::FilePath;

fn parse(source: &str) -> Note {
    parse_markdown(FilePath::new("note.md"), source)
}

fn no_numbers() -> NumberWords {
    NumberWords::new()
}

fn number(value: f64) -> Number {
    Number::new(value.to_bits(), value.to_string())
}

fn keys(fields: &[MetadataField]) -> Vec<&str> {
    fields.iter().map(|field| field.key().name()).collect()
}

fn text(value: &str) -> FieldValue {
    FieldValue::String(value.to_owned())
}

// Outlines.

#[test]
fn extracts_yaml_frontmatter() {
    let input = "---\ntitle: My Note\ntags: [rust, pkm]\n---\n# Header\nBody text";
    let outline = parse_outline(input, TextStyle::Compact);
    let fm = outline.frontmatter.expect("frontmatter present");
    assert_eq!(fm.as_str(), "title: My Note\ntags: [rust, pkm]\n");
    assert_eq!(fm.is_empty(), false);
}

#[test]
fn extracts_markdown_and_wikilinks() {
    let input = "Here is a [[target_page|Display Alias]] and [[simple_target]] as well as [Markdown Link](https://example.com).";
    let outline = parse_outline(input, TextStyle::Compact);
    let links = &outline.outlinks;
    assert_eq!(links.len(), 3);

    assert_eq!(links[0].target(), "target_page");
    assert_eq!(links[0].text(), "Display Alias");
    assert_eq!(links[0].is_wikilink(), true);

    assert_eq!(links[1].target(), "simple_target");
    assert_eq!(links[1].is_wikilink(), true);

    assert_eq!(links[2].target(), "https://example.com");
    assert_eq!(links[2].text(), "Markdown Link");
    assert_eq!(links[2].is_markdown(), true);
}

#[test]
fn extracts_lists_and_tasks() {
    let input =
        "- [ ] Buy milk\n- [x] Read book\n  - [ ] Subtask 1\n- Plain bullet";
    let outline = parse_outline(input, TextStyle::Compact);
    assert_eq!(outline.lists.len(), 1);

    let list = &outline.lists[0];
    assert_eq!(list.is_ordered(), false);
    assert_eq!(list.items().len(), 3);

    let item0 = &list.items()[0];
    assert_eq!(item0.text(), "Buy milk");
    assert_eq!(item0.is_task(), true);
    assert_eq!(item0.is_completed(), false);

    let item1 = &list.items()[1];
    assert_eq!(item1.text(), "Read book");
    assert_eq!(item1.is_completed(), true);
    assert_eq!(item1.children().len(), 1);

    let sub_list = &item1.children()[0];
    assert_eq!(sub_list.items().len(), 1);
    let sub_item = &sub_list.items()[0];
    assert_eq!(sub_item.text(), "Subtask 1");
    assert_eq!(sub_item.is_task(), true);
    assert_eq!(sub_item.is_completed(), false);

    let item2 = &list.items()[2];
    assert_eq!(item2.text(), "Plain bullet");
    assert_eq!(item2.is_task(), false);
}

#[test]
fn note_tasks_accessor_returns_all_task_items() {
    let input = "- [ ] Top task 1\n- Plain bullet\n  - [x] Nested task 1\n- [ ] Top task 2";
    let outline = parse_outline(input, TextStyle::Compact);
    let note = Note::from_outline(FilePath::new("note.md"), outline);
    let tasks = note.tasks();
    assert_eq!(tasks.len(), 3);

    assert_eq!(tasks[0].text(), "Top task 1");
    assert_eq!(tasks[0].is_completed(), false);

    assert_eq!(tasks[1].text(), "Nested task 1");
    assert_eq!(tasks[1].is_completed(), true);

    assert_eq!(tasks[2].text(), "Top task 2");
    assert_eq!(tasks[2].is_completed(), false);
}

#[test]
fn tracks_code_regions_for_inline_and_fenced_code() {
    let input = "Text with `inline code` span.\n\n```rust\nfn main() {}\n```\n";
    let outline = parse_outline(input, TextStyle::Compact);
    let regions = &outline.code_regions;
    assert_eq!(regions.len(), 2);
    assert_eq!(&input[regions[0].range()], "`inline code`");
    assert_eq!(&input[regions[1].range()], "```rust\nfn main() {}\n```");
}

#[test]
fn returns_empty_note_when_source_is_empty() {
    let note = parse("");
    assert_eq!(note.path().to_text(), "note.md");
    assert!(note.frontmatter().is_none());
    assert_eq!(note.lists().len(), 0);
    assert_eq!(note.outlinks().len(), 0);
    assert_eq!(note.code_regions().len(), 0);
}

#[test]
fn returns_none_for_frontmatter_when_absent() {
    let note = parse("# Header\nNo YAML block.");
    assert!(note.frontmatter().is_none());
}

#[test]
fn extracts_yaml_frontmatter_block_raw_content() {
    let input = "---\ntitle: My Note\ntags: [rust, pkm]\n---\n# Header";
    let outline = parse_outline(input, TextStyle::Verbatim);
    let fm = outline.frontmatter.expect("frontmatter present");
    assert_eq!(fm.as_str(), "title: My Note\ntags: [rust, pkm]\n");
    assert_eq!(fm.is_empty(), false);
}

#[test]
fn extracts_outlinks() {
    let cases = [
        (
            "See [[target_page|Display Alias]] for context.",
            "target_page",
            "Display Alias",
            LinkType::Wikilink,
        ),
        (
            "See [[simple_target]] for details.",
            "simple_target",
            "simple_target",
            LinkType::Wikilink,
        ),
        (
            "Check out [Markdown Link](https://example.com).",
            "https://example.com",
            "Markdown Link",
            LinkType::Markdown,
        ),
    ];
    for (input, expected_target, expected_text, expected_kind) in cases {
        let note = parse(input);
        let link = note.outlinks().first().expect("outlink present");
        assert_eq!(link.target(), expected_target);
        assert_eq!(link.text(), expected_text);
        assert_eq!(link.kind(), expected_kind);
    }
}

#[test]
fn extracts_task_item_completion_status() {
    let note = parse("- [ ] Incomplete task\n- [x] Completed task");
    let list = note.lists().first().expect("list present");
    let item0 = list.items().first().expect("item 0");
    let item1 = list.items().get(1).expect("item 1");

    assert_eq!(item0.text(), "Incomplete task");
    assert_eq!(item0.is_task(), true);
    assert_eq!(item0.is_completed(), false);

    assert_eq!(item1.text(), "Completed task");
    assert_eq!(item1.is_task(), true);
    assert_eq!(item1.is_completed(), true);
}

#[test]
fn includes_link_display_text_in_the_containing_item_text() {
    let note = parse("- [ ] Check [link text](https://example.com) here");
    let item = note
        .lists()
        .first()
        .and_then(|list| list.items().first())
        .expect("item present");
    assert_eq!(item.text(), "Check link text here");

    let link = note.outlinks().first().expect("outlink present");
    assert_eq!(link.text(), "link text");
}

#[test]
fn compact_items_leave_link_texts_out() {
    let input = "- Check [link text](https://example.com) here";
    let outline = parse_outline(input, TextStyle::Compact);
    assert_eq!(outline.lists[0].items()[0].text(), "Check  here");
}

#[test]
fn extracts_nested_child_lists() {
    let note = parse("- Parent item\n  - Child item");
    let parent_list = note.lists().first().expect("parent list");
    let parent_item = parent_list.items().first().expect("parent item");
    assert_eq!(parent_item.children().len(), 1);

    let child_list = parent_item.children().first().expect("child list");
    let child_item = child_list.items().first().expect("child item");
    assert_eq!(child_item.text(), "Child item");
}

#[test]
fn extracts_list_ordering() {
    let cases = [
        ("- First\n- Second", false),
        ("1. First step\n2. Second step", true),
    ];
    for (input, expected_ordered) in cases {
        let note = parse(input);
        let list = note.lists().first().expect("list present");
        assert_eq!(list.is_ordered(), expected_ordered);
        assert_eq!(list.items().len(), 2);
    }
}

#[test]
fn tracks_code_regions() {
    let cases = [
        ("Text with `inline code` span.", "`inline code`"),
        ("```rust\nfn main() {}\n```", "```rust\nfn main() {}\n```"),
    ];
    for (input, expected_snippet) in cases {
        let note = parse(input);
        let region = note.code_regions().first().expect("code region");
        assert_eq!(&input[region.range()], expected_snippet);
    }
}

#[test]
fn iterates_top_level_task_items() {
    let note = parse("- [ ] Task 1\n- Plain item\n- [x] Task 2");
    let tasks = note.tasks();
    assert_eq!(tasks.len(), 2);
    assert_eq!(tasks[0].text(), "Task 1");
    assert_eq!(tasks[1].text(), "Task 2");
}

#[test]
fn iterates_nested_sub_list_task_items() {
    let note = parse("- Plain parent\n  - [x] Subtask 1");
    let tasks = note.tasks();
    assert_eq!(tasks.len(), 1);
    assert_eq!(tasks[0].text(), "Subtask 1");
    assert_eq!(tasks[0].is_completed(), true);
}

fn event(kind: EventKind, start: usize, end: usize) -> MarkdownEvent {
    MarkdownEvent { kind, start, end }
}

#[test]
fn outlines_come_from_events() {
    let events = vec![
        event(EventKind::StartMetadata, 0, 10),
        event(EventKind::Text("a: 1\n".to_owned()), 4, 9),
        event(EventKind::EndMetadata, 0, 10),
        event(EventKind::StartList(Some(1)), 10, 30),
        event(EventKind::StartItem, 10, 20),
        event(EventKind::TaskMarker(true), 12, 15),
        event(EventKind::Text("do ".to_owned()), 15, 18),
        event(EventKind::Code("x".to_owned()), 18, 21),
        event(EventKind::EndItem, 10, 20),
        event(EventKind::EndList, 10, 30),
        event(EventKind::StartLink(true, "t".to_owned()), 31, 36),
        event(EventKind::Text("shown".to_owned()), 33, 34),
        event(EventKind::EndLink, 31, 36),
        event(EventKind::StartCodeBlock, 40, 50),
        event(EventKind::EndCodeBlock, 40, 50),
    ];
    let outline = outline_events(&events, TextStyle::Verbatim);
    assert_eq!(outline.frontmatter.as_ref().map(RawFrontmatter::as_str), Some("a: 1\n"));
    assert_eq!(outline.lists.len(), 1);
    assert!(outline.lists[0].is_ordered());
    assert_eq!(outline.lists[0].items()[0].text(), "do x");
    assert!(outline.lists[0].items()[0].is_completed());
    assert_eq!(outline.outlinks[0].target(), "t");
    assert_eq!(outline.outlinks[0].text(), "shown");
    assert_eq!(outline.code_regions, vec![CodeRegion::new(18, 21), CodeRegion::new(40, 50)]);
}

#[test]
fn breaks_of_both_kinds_join_the_lines_of_an_item() {
    let events = vec![
        event(EventKind::StartList(None), 0, 9),
        event(EventKind::StartItem, 0, 9),
        event(EventKind::Text("a".to_owned()), 2, 3),
        event(EventKind::SoftBreak, 3, 4),
        event(EventKind::Text("b".to_owned()), 4, 5),
        event(EventKind::HardBreak, 5, 8),
        event(EventKind::Text("c".to_owned()), 8, 9),
        event(EventKind::EndItem, 0, 9),
        event(EventKind::EndList, 0, 9),
    ];
    let verbatim = outline_events(&events, TextStyle::Verbatim);
    assert!(!verbatim.lists[0].is_ordered());
    assert_eq!(verbatim.lists[0].items()[0].text(), "a\nb\nc");
    let compact = outline_events(&events, TextStyle::Compact);
    assert_eq!(compact.lists[0].items()[0].text(), "a b c");
}

// The plain text of a note.

#[test]
fn each_block_and_each_item_has_a_text() {
    let source = "# Head\n\none\ntwo\n\n- a\n  - b\n- c\n\nlast\n";
    assert_eq!(
        parse_metadata_texts(source),
        vec!["Head", "one\ntwo", "a", "b", "c", "last"]
    );
}

#[test]
fn paragraphs_of_one_item_share_its_text() {
    assert_eq!(parse_metadata_texts("- one\n\n  two\n\n- three\n"), vec!["one\ntwo", "three"]);
}

#[test]
fn code_and_frontmatter_are_in_no_text() {
    let source = "---\nx: '#a'\n---\nsee `#b` here\n\n```\n#c\n```\n\n    #d\n\n- i `#e`\n";
    let texts = parse_metadata_texts(source);
    assert_eq!(texts, vec!["see  here", "i "]);
    assert!(scan_tags(&texts).is_empty());
}

#[test]
fn texts_come_from_events() {
    let events = vec![
        event(EventKind::StartMetadata, 0, 9),
        event(EventKind::Text("k: 1".to_owned()), 4, 8),
        event(EventKind::EndMetadata, 0, 9),
        event(EventKind::StartHeading, 10, 15),
        event(EventKind::Text("top".to_owned()), 12, 15),
        event(EventKind::EndHeading, 10, 15),
        event(EventKind::Text("loose".to_owned()), 15, 16),
        event(EventKind::StartItem, 16, 40),
        event(EventKind::Text("a".to_owned()), 18, 19),
        event(EventKind::HardBreak, 19, 20),
        event(EventKind::StartCodeBlock, 20, 25),
        event(EventKind::Text("code".to_owned()), 21, 24),
        event(EventKind::EndCodeBlock, 20, 25),
        event(EventKind::StartItem, 26, 30),
        event(EventKind::Code("x".to_owned()), 27, 28),
        event(EventKind::EndItem, 26, 30),
        event(EventKind::Text("b".to_owned()), 31, 32),
        event(EventKind::EndItem, 16, 40),
    ];
    assert_eq!(metadata_texts(&events), vec!["top", "a\nb", ""]);
}

#[test]
fn texts_are_scanned_one_after_the_other() {
    let texts = parse_metadata_texts("# T #x\n\nk:: 1\n[m:: 2] #y/z\n\n- n:: 3\n");
    assert_eq!(keys(&scan_fields(&texts, &no_numbers())), vec!["k", "m", "n"]);
    let tags = scan_tags(&texts);
    assert_eq!(tags.iter().map(Tag::as_str).collect::<Vec<_>>(), vec!["#x", "#y/z"]);
}

// Notes and their parts.

fn built(frontmatter: Option<Frontmatter>) -> Note {
    Note::new(
        FilePath::new("notes/a.md"),
        frontmatter,
        vec![List::new(false, vec![ListItem::new("item", None)])],
        vec![Outlink::new("target", "text", LinkType::Wikilink)],
        vec![CodeRegion::new(3, 7)],
    )
}

fn bare() -> Note {
    Note::new(FilePath::new("notes/a.md"), None, Vec::new(), Vec::new(), Vec::new())
}

#[test]
fn types_constructs_note_with_the_given_path_and_parts() {
    let frontmatter = Frontmatter::from(&RawFrontmatter::new("title: A\n"));
    let note = built(Some(frontmatter));
    assert_eq!(note.path().to_text(), "notes/a.md");
    assert_eq!(keys(note.frontmatter().expect("frontmatter").fields()), vec!["title"]);
    assert_eq!(note.lists().len(), 1);
    assert_eq!(note.lists()[0].items()[0].text(), "item");
    assert_eq!(note.outlinks().len(), 1);
    assert!(note.outlinks()[0].same(&Outlink::new("target", "text", LinkType::Wikilink)));
    assert_eq!(note.code_regions(), &[CodeRegion::new(3, 7)]);
}

#[test]
fn types_constructs_note_with_no_frontmatter_and_empty_collections() {
    let note = bare();
    assert_eq!(note.path().to_text(), "notes/a.md");
    assert!(note.frontmatter().is_none());
    assert_eq!(note.lists().len(), 0);
    assert_eq!(note.outlinks().len(), 0);
    assert_eq!(note.code_regions().len(), 0);
}

#[test]
fn note_constructs_note_with_the_given_path_and_parts() {
    let note = built(Some(Frontmatter::new(Vec::new())));
    assert_eq!(note.path().to_text(), "notes/a.md");
    assert_eq!(note.frontmatter().map(Frontmatter::is_empty), Some(true));
    assert!(!note.lists()[0].is_ordered());
    assert_eq!(note.outlinks()[0].target(), "target");
    assert_eq!(note.code_regions(), &[CodeRegion::new(3, 7)]);
}

#[test]
fn note_constructs_note_with_no_frontmatter_and_empty_collections() {
    let note = bare();
    assert!(note.frontmatter().is_none());
    assert_eq!(note.lists().len() + note.outlinks().len() + note.code_regions().len(), 0);
}

#[test]
fn creates_frontmatter_with_raw_content() {
    let fm = RawFrontmatter::new("key: value\n");
    assert_eq!(fm.as_str(), "key: value\n");
    assert_eq!(fm.is_empty(), false);
}

#[test]
fn creates_empty_frontmatter() {
    let fm = RawFrontmatter::new("");
    assert_eq!(fm.as_str(), "");
    assert_eq!(fm.is_empty(), true);
}

#[test]
fn evaluates_outlink_kind_predicates() {
    let cases = [
        ("target", "alias", LinkType::Wikilink, true, false),
        ("https://example.com", "text", LinkType::Markdown, false, true),
    ];
    for (target, shown, kind, expected_wikilink, expected_markdown) in cases {
        let link = Outlink::new(target, shown, kind);
        assert_eq!(link.target(), target);
        assert_eq!(link.text(), shown);
        assert_eq!(link.kind(), kind);
        assert_eq!(link.is_wikilink(), expected_wikilink);
        assert_eq!(link.is_markdown(), expected_markdown);
    }
}

#[test]
fn whole_wikilinks_are_links() {
    let link = Outlink::from_wikilink("[[Project Alpha|Alpha]]").expect("a link");
    assert_eq!((link.target(), link.text()), ("Project Alpha", "Alpha"));
    let plain = Outlink::from_wikilink("[[note]]").expect("a link");
    assert_eq!((plain.target(), plain.text()), ("note", "note"));
    assert!(Outlink::from_wikilink("see [[note]]").is_none());
    assert!(Outlink::from_wikilink("[[note]").is_none());
}

#[test]
fn evaluates_list_item_task_predicates() {
    let cases = [
        (Some(TaskStatus::Incomplete), true, false),
        (Some(TaskStatus::Complete), true, true),
        (None, false, false),
    ];
    for (task_status, expected_is_task, expected_is_completed) in cases {
        let item = ListItem::new("task item", task_status);
        assert_eq!(item.text(), "task item");
        assert_eq!(item.task_status(), task_status);
        assert_eq!(item.is_task(), expected_is_task);
        assert_eq!(item.is_completed(), expected_is_completed);
        assert_eq!(item.children().len(), 0);
    }
}

#[test]
fn creates_item_with_children() {
    let child_list = List::new(false, vec![ListItem::new("child item", None)]);
    let parent_item = ListItem::with_children("parent item", None, vec![child_list]);
    assert_eq!(parent_item.children().len(), 1);
    let first_child_list = parent_item.children().first().expect("child list");
    assert_eq!(first_child_list.items().len(), 1);
    let first_child_item = first_child_list.items().first().expect("child item");
    assert_eq!(first_child_item.text(), "child item");
}

#[test]
fn stores_the_given_ordering_and_items() {
    for is_ordered in [true, false] {
        let list = List::new(
            is_ordered,
            vec![ListItem::new("First step", None), ListItem::new("Second step", None)],
        );
        assert_eq!(list.is_ordered(), is_ordered);
        assert_eq!(list.items().len(), 2);
    }
}

#[test]
fn returns_range() {
    let region = CodeRegion::new(10, 25);
    assert_eq!(region.range(), 10..25);
}

#[test]
fn returns_the_original_source_range() {
    let region = CodeRegion::new(3, 7);
    assert_eq!(region.range(), 3..7);
}

#[test]
fn stores_key_value_and_form() {
    for form in [InlineFieldForm::Body, InlineFieldForm::VisibleKey, InlineFieldForm::HiddenKey] {
        let field = MetadataField::new("Author", text("Jane Doe"), FieldSource::Body(form));
        assert_eq!(field.key().name(), "Author");
        assert!(field.value().equals(&text("Jane Doe")));
        assert_eq!(field.form(), Some(form));
    }
}

#[test]
fn stores_the_given_text() {
    assert_eq!(Tag::new("#book").as_str(), "#book");
}

#[test]
fn tags_nest_under_their_parents() {
    let tag = Tag::new("#projects/active");
    assert!(tag.is_nested_under("#projects"));
    assert!(tag.is_nested_under("#projects/active"));
    assert!(!tag.is_nested_under("#project"));
    assert!(!tag.is_nested_under("#projects/active/now"));
}

fn draft() -> MetadataField {
    MetadataField::new("Status", text("Draft"), FieldSource::Body(InlineFieldForm::Body))
}

#[test]
fn with_inline_fields_attaches_the_given_fields() {
    let note = bare().with_inline_fields(vec![draft()]);
    assert_eq!(keys(note.inline_fields()), vec!["Status"]);
    assert!(note.inline_fields()[0].value().equals(&text("Draft")));
}

#[test]
fn with_tags_attaches_the_given_tags() {
    let note = bare().with_tags(vec![Tag::new("#book")]);
    assert_eq!(note.tags().len(), 1);
    assert_eq!(note.tags()[0].as_str(), "#book");
}

#[test]
fn defaults_to_no_inline_fields_or_tags() {
    let note = bare();
    assert_eq!(note.inline_fields().len(), 0);
    assert_eq!(note.tags().len(), 0);
}

#[test]
fn builder_methods_attach_inline_fields_and_tags() {
    let note = bare().with_inline_fields(vec![draft()]).with_tags(vec![Tag::new("#book")]);
    assert_eq!(keys(note.inline_fields()), vec!["Status"]);
    assert_eq!(note.tags()[0].as_str(), "#book");
}

#[test]
fn fields_list_frontmatter_before_inline_fields() {
    let frontmatter = Frontmatter::new(vec![MetadataField::new(
        "title",
        text("A"),
        FieldSource::Frontmatter,
    )]);
    let note = built(Some(frontmatter)).with_inline_fields(vec![draft()]);
    let found: Vec<&str> = note.fields().iter().map(|field| field.key().name()).collect();
    assert_eq!(found, vec!["title", "Status"]);
}

// Inline fields and tags.

const FORMS: [(&str, &str, &str, InlineFieldForm); 3] = [
    ("Author:: Jane Doe", "Author", "Jane Doe", InlineFieldForm::Body),
    ("See the [Status:: Draft] note.", "Status", "Draft", InlineFieldForm::VisibleKey),
    ("See the (Status:: Draft) note.", "Status", "Draft", InlineFieldForm::HiddenKey),
];

#[test]
fn extracts_a_field_in_its_declared_form() {
    for (input, expected_key, expected_value, expected_form) in FORMS {
        let fields = extract_inline_fields(input, &no_numbers());
        assert_eq!(fields.len(), 1);
        let field = fields.first().expect("field present");
        assert_eq!(field.key().name(), expected_key);
        assert_eq!(field.value().as_str(), Some(expected_value));
        assert_eq!(field.form(), Some(expected_form));
    }
}

#[test]
fn inline_rejects_a_multi_word_bare_key() {
    let fields = extract_inline_fields("This sentence has a :: but no key.", &no_numbers());
    assert_eq!(fields.len(), 0);
}

#[test]
fn rejects_a_multi_word_bare_key() {
    let fields = extract_inline_fields("This sentence has a :: but no key.", &no_numbers());
    assert!(fields.is_empty());
}

#[test]
fn accepts_a_multi_word_key_when_delimiter_bounded() {
    for (input, expected_key) in
        [("[Due Date:: 2024-01-01]", "Due Date"), ("(Due Date:: 2024-01-01)", "Due Date")]
    {
        let fields = extract_inline_fields(input, &no_numbers());
        let field = fields.first().expect("field present");
        assert_eq!(field.key().name(), expected_key);
        assert_eq!(field.value().as_str(), Some("2024-01-01"));
    }
}

#[test]
fn inline_extracts_a_bare_field_from_each_line_of_a_multiline_buffer() {
    let fields = extract_inline_fields("Status:: Draft\nAuthor:: Jane Doe", &no_numbers());
    assert_eq!(keys(&fields), vec!["Status", "Author"]);
}

#[test]
fn extracts_a_bare_field_from_each_line_of_a_multiline_buffer() {
    let fields = extract_inline_fields("Status:: Draft\nAuthor:: Jane Doe", &no_numbers());
    assert_eq!(fields[1].value().as_str(), Some("Jane Doe"));
}

#[test]
fn inline_trims_surrounding_whitespace_from_the_value() {
    let fields = extract_inline_fields("Status::    Draft   ", &no_numbers());
    let field = fields.first().expect("field present");
    assert_eq!(field.value().as_str(), Some("Draft"));
}

#[test]
fn trims_surrounding_whitespace_from_the_value() {
    let fields = extract_inline_fields("Status::    Draft   ", &no_numbers());
    assert_eq!(fields[0].value().as_str(), Some("Draft"));
}

#[test]
fn inline_extracts_an_empty_value_when_nothing_follows_the_double_colon() {
    let fields = extract_inline_fields("Status::", &no_numbers());
    let field = fields.first().expect("field present");
    assert!(field.value().is_null());
}

#[test]
fn inline_accepts_a_bare_key_preceded_by_leading_whitespace() {
    let fields = extract_inline_fields("  Status:: Draft", &no_numbers());
    let field = fields.first().expect("field present");
    assert_eq!(field.key().name(), "Status");
}

#[test]
fn accepts_a_bare_key_preceded_by_leading_whitespace() {
    let fields = extract_inline_fields("  Status:: Draft", &no_numbers());
    assert_eq!(keys(&fields), vec!["Status"]);
}

#[test]
fn inline_orders_matches_by_position_across_forms() {
    let fields = extract_inline_fields(
        "Status:: Draft\nSee [Reader:: Jane] and (Editor:: Sam).",
        &no_numbers(),
    );
    assert_eq!(keys(&fields), vec!["Status", "Reader", "Editor"]);
}

#[test]
fn orders_matches_by_position_across_forms() {
    let fields = extract_inline_fields(
        "Status:: Draft\nSee [Reader:: Jane] and (Editor:: Sam).",
        &no_numbers(),
    );
    let forms: Vec<Option<InlineFieldForm>> = fields.iter().map(|f| f.form()).collect();
    assert_eq!(
        forms,
        vec![
            Some(InlineFieldForm::Body),
            Some(InlineFieldForm::VisibleKey),
            Some(InlineFieldForm::HiddenKey),
        ]
    );
}

#[test]
fn extracts_tags_matching_the_expected_set() {
    let cases: [(&str, &[&str]); 8] = [
        ("Filed under #book for later.", &["#book"]),
        ("#projects/active needs review.", &["#projects/active"]),
        ("#book #fiction favorites.", &["#book", "#fiction"]),
        ("The issue is foo#bar, not a tag.", &[]),
        ("(#a)(#b)", &["#a", "#b"]),
        ("#a#b", &["#a"]),
        ("café—#book", &["#book"]),
        ("café#book", &[]),
    ];
    for (input, expected) in cases {
        let tags = extract_tags(input);
        let found: Vec<&str> = tags.iter().map(Tag::as_str).collect();
        assert_eq!(found, expected, "{input}");
    }
}

#[test]
fn inline_values_are_typed() {
    let mut numbers = NumberWords::new();
    numbers.insert("42.5".to_owned(), number(42.5));
    let value = |raw: &str| parse_inline_value_str(raw, &numbers);
    assert!(value("").is_null());
    assert!(matches!(value("true"), FieldValue::Bool(true)));
    assert!(matches!(value("false"), FieldValue::Bool(false)));
    assert!(matches!(value("42.5"), FieldValue::Number(n) if n.bits() == 42.5f64.to_bits()));
    assert!(matches!(value("2026-07-29"), FieldValue::Date(date) if date == "2026-07-29"));
    assert!(matches!(value("draft"), FieldValue::String(word) if word == "draft"));
}

// Frontmatter and YAML values.

#[test]
fn parses_valid_yaml_into_structured_frontmatter() {
    let fm = Frontmatter::from(&RawFrontmatter::new("title: Test\ndraft: true\n"));
    assert_eq!(fm.fields().len(), 2);
    let title =
        fm.fields().iter().find(|field| field.key().name() == "title").expect("title");
    assert!(title.value().equals(&text("Test")));
    assert_eq!(title.source(), FieldSource::Frontmatter);
}

#[test]
fn converts_empty_raw_frontmatter_to_empty_frontmatter() {
    let fm = Frontmatter::from(&RawFrontmatter::new("  \n"));
    assert_eq!(fm.is_empty(), true);
}

#[test]
fn handles_malformed_yaml_resiliently_with_empty_fields() {
    let fm = Frontmatter::from(&RawFrontmatter::new("invalid: [yaml: :"));
    assert_eq!(fm.is_empty(), true);
}

#[test]
fn converts_serde_yaml_value_into_field_value_variants() {
    let raw = "
value:
  str: hello
  num: 42.5
  bool: true
  null_val: null
  date: 2026-07-29
  list: [1, 2]
";
    let fm = Frontmatter::from(&RawFrontmatter::new(raw));
    let expected = FieldValue::Object(vec![
        ("bool".to_owned(), FieldValue::Bool(true)),
        ("date".to_owned(), FieldValue::Date("2026-07-29".to_owned())),
        (
            "list".to_owned(),
            FieldValue::List(vec![
                FieldValue::Number(number(1.0)),
                FieldValue::Number(number(2.0)),
            ]),
        ),
        ("null_val".to_owned(), FieldValue::Null),
        ("num".to_owned(), FieldValue::Number(number(42.5))),
        ("str".to_owned(), text("hello")),
    ]);
    assert_eq!(fm.fields().len(), 1);
    assert!(fm.fields()[0].value().equals(&expected));
    assert!(fm.fields()[0].value().copy().equals(&expected));
}

#[test]
fn documents_that_are_no_mapping_have_no_fields() {
    assert!(Frontmatter::from_document(None).is_empty());
    assert!(Frontmatter::from_document(Some(YamlValue::Bool(true))).is_empty());
    let mapping = YamlValue::Mapping(vec![
        (YamlValue::String("a".to_owned()), YamlValue::Bool(true)),
        (YamlValue::Sequence(Vec::new()), YamlValue::Bool(true)),
    ]);
    let fm = Frontmatter::from_document(Some(mapping));
    assert_eq!(keys(fm.fields()), vec!["a"]);
}

#[test]
fn yaml_texts_become_dates_durations_or_links() {
    let value = |raw: &str| FieldValue::from_yaml(&YamlValue::String(raw.to_owned()));
    assert!(matches!(value("2026-07-29"), FieldValue::Date(_)));
    assert!(matches!(value("[[a|b]]"), FieldValue::Link(link) if link.target() == "a"));
    assert!(matches!(value("plain"), FieldValue::String(_)));
}

#[test]
fn iso_dates_are_digits_and_hyphens() {
    assert!(is_iso_date("2026-07-29"));
    assert!(!is_iso_date("2026-7-29"));
    assert!(!is_iso_date("20260729"));
    assert!(!is_iso_date(""));
}

// Bytes.

#[test]
fn byte_sources_slice_at_character_boundaries() {
    let bytes = ByteSource::new("aé::b");
    assert_eq!(bytes.len(), 6);
    assert_eq!(bytes.from(1), Some("é::b"));
    assert_eq!(bytes.from(2), None);
    assert_eq!(bytes.get(1..3), Some("é"));
    assert_eq!(bytes.get(3..1), None);
    assert_eq!(bytes.find_char_from(0, ':'), Some(3));
    assert_eq!(bytes.find_char_from(4, ':'), Some(4));
    assert_eq!(bytes.find_char_from(5, ':'), None);
    assert_eq!(bytes.find_str_from(0, "::"), Some(3));
    assert_eq!(bytes.find_str_from(0, "?"), None);
    assert!(bytes.starts_with(3, "::"));
    assert!(!bytes.starts_with(0, "::"));
    assert_eq!(bytes.advance_char(1, 'é'), 3);
}

#[test]
fn byte_ranges_keep_their_bounds() {
    let range = ByteRange::new(3, 8);
    assert_eq!((range.start(), range.end()), (3, 8));
    assert_eq!(range.range(), 3..8);
}
