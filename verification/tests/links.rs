//! Resolving links, and the graph of inbound links.

use traces::file::{FileBase, FileFormat};
use traces::index::inlinks::{resolve_edges_for, InlinkMap, LinkEntry};
use traces::index::links::{FolderRef, LinkResolver, LinkTarget};
use traces::index::sort::SortedByPath;
use traces::note::document::{parse_markdown, Note};
use traces::note::structure::LinkType;
use traces::path::FilePath;

fn path(text: &str) -> FilePath {
    FilePath::new(text)
}

fn texts(paths: &[FilePath]) -> Vec<String> {
    paths.iter().map(FilePath::to_text).collect()
}

fn parse(at: &str, source: &str) -> Note {
    parse_markdown(path(at), source)
}

fn attachment(at: &str) -> FileBase {
    FileBase::for_test(at, FileFormat::Other)
}

fn note_with_outlink(at: &str, target: &str, kind: LinkType) -> Note {
    let source = match kind {
        LinkType::Wikilink => format!("[[{target}]]"),
        LinkType::Markdown => format!("[link]({target})"),
    };
    parse(at, &source)
}

fn notes_and(paths: &[&str], extra: Vec<FileBase>) -> SortedByPath<FileBase> {
    let mut files: Vec<FileBase> = paths.iter().map(|at| FileBase::note_for_test(at)).collect();
    files.extend(extra);
    SortedByPath::sorted(files)
}

fn files_from_notes(paths: &[&str]) -> SortedByPath<FileBase> {
    notes_and(paths, Vec::new())
}

fn resolve(files: &SortedByPath<FileBase>, from: &str, target: LinkTarget) -> Option<String> {
    LinkResolver::new(files).resolve(&path(from), &target).map(|found| found.to_text())
}

fn to(text: &str) -> LinkTarget {
    LinkTarget::Path(text.to_owned())
}

fn found(text: &str) -> Option<String> {
    Some(text.to_owned())
}

#[test]
fn resolves_exact_root_relative_markdown_path() {
    let files = files_from_notes(&["notes/other.md"]);
    assert_eq!(resolve(&files, "linking.md", to("notes/other.md")), found("notes/other.md"));
}

#[test]
fn resolves_to_the_path_as_the_file_writes_it() {
    let files = files_from_notes(&["notes//other.md"]);
    assert_eq!(resolve(&files, "linking.md", to("notes/other.md")), found("notes//other.md"));
    assert_eq!(resolve(&files, "linking.md", to("other")), found("notes//other.md"));
}

#[test]
fn resolves_markdown_path_missing_extension() {
    let files = files_from_notes(&["other.md"]);
    assert_eq!(resolve(&files, "linking.md", to("other")), found("other.md"));
}

#[test]
fn resolves_path_with_anchor_by_path_segment() {
    let files = files_from_notes(&["other.md"]);
    let target = LinkTarget::PathWithAnchor("other".to_owned(), "Some Heading".to_owned());
    assert_eq!(resolve(&files, "linking.md", target), found("other.md"));
}

#[test]
fn resolves_wikilink_by_unique_file_stem() {
    let files = files_from_notes(&["notes/Project Alpha.md", "notes/other.md"]);
    assert_eq!(
        resolve(&files, "linking.md", to("Project Alpha")),
        found("notes/Project Alpha.md")
    );
}

#[test]
fn resolves_ambiguous_basename_match_to_nearest_candidate() {
    let files = files_from_notes(&["notes/a/note.md", "notes/b/note.md"]);
    assert_eq!(resolve(&files, "notes/a/linking.md", to("note")), found("notes/a/note.md"));
}

#[test]
fn resolves_to_nearer_candidate_despite_farther_tie() {
    let files = files_from_notes(&["far/a/note.md", "far/b/note.md", "near/note.md"]);
    assert_eq!(resolve(&files, "near/linking.md", to("note")), found("near/note.md"));
}

#[test]
fn resolves_to_a_distant_shallow_sibling_over_a_close_deep_nesting() {
    let files = files_from_notes(&["shared/deep/nested/sub/note.md", "far/note.md"]);
    assert_eq!(resolve(&files, "shared/linking.md", to("note")), found("far/note.md"));
}

#[test]
fn returns_none_for_ambiguous_basename_match_at_equal_distance() {
    let files = files_from_notes(&["a/note.md", "b/note.md"]);
    assert_eq!(resolve(&files, "linking.md", to("note")), None);
}

#[test]
fn resolves_none_for_a_tie_spanning_an_ancestor_and_a_descendant_branch() {
    let files = files_from_notes(&["shared/a/b/note.md", "other/note.md"]);
    assert_eq!(resolve(&files, "shared/linking.md", to("note")), None);
}

#[test]
fn resolves_ambiguous_self_referential_basename_to_itself() {
    let files = files_from_notes(&["a.md", "b/a.md"]);
    assert_eq!(resolve(&files, "a.md", to("a")), found("a.md"));
}

#[test]
fn resolves_basename_with_extension() {
    let files = files_from_notes(&["notes/report.md"]);
    assert_eq!(resolve(&files, "linking.md", to("report.txt")), found("notes/report.md"));
}

#[test]
fn resolves_basename_with_matching_extension() {
    let files = notes_and(
        &["near/linking.md", "near/report.md"],
        vec![attachment("far/report.txt")],
    );
    assert_eq!(resolve(&files, "near/linking.md", to("report.txt")), found("far/report.txt"));
}

#[test]
fn resolves_links_to_image_attachments() {
    let files = notes_and(&["note.md"], vec![attachment("assets/diagram.png")]);
    assert_eq!(resolve(&files, "note.md", to("diagram.png")), found("assets/diagram.png"));
}

#[test]
fn resolves_links_to_pdf_attachments() {
    let files = notes_and(&["note.md"], vec![attachment("docs/specification.pdf")]);
    assert_eq!(
        resolve(&files, "note.md", to("specification.pdf")),
        found("docs/specification.pdf")
    );
}

#[test]
fn skips_basename_fallback_for_qualified_paths() {
    let files = files_from_notes(&["archive/foo.md", "notes/bar.md"]);
    assert_eq!(resolve(&files, "linking.md", to("notes/foo")), None);
}

#[test]
fn returns_none_for_basename_matching_no_indexed_file() {
    let files = files_from_notes(&["other.md"]);
    assert_eq!(resolve(&files, "linking.md", to("nonexistent")), None);
}

#[test]
fn returns_none_for_unresolvable_url_target() {
    let files = files_from_notes(&["other.md"]);
    assert_eq!(resolve(&files, "linking.md", to("https://example.com")), None);
}

#[test]
fn returns_none_for_anchor_only_target() {
    let files = files_from_notes(&["other.md"]);
    let target = LinkTarget::AnchorOnly("Some Heading".to_owned());
    assert_eq!(resolve(&files, "linking.md", target), None);
}

#[test]
fn targets_split_at_the_first_hash() {
    assert!(matches!(LinkTarget::parse("a/b"), LinkTarget::Path(text) if text == "a/b"));
    assert!(matches!(LinkTarget::parse("#top"), LinkTarget::AnchorOnly(text) if text == "top"));
    assert!(matches!(
        LinkTarget::parse("a#b#c"),
        LinkTarget::PathWithAnchor(at, anchor) if at == "a" && anchor == "b#c"
    ));
    assert_eq!(LinkTarget::parse("a#b").path(), Some("a"));
    assert_eq!(LinkTarget::parse("#b").path(), None);
}

fn build_graph(notes: Vec<Note>, extra: Vec<FileBase>) -> InlinkMap {
    let paths: Vec<String> = notes.iter().map(|note| note.path().to_text()).collect();
    let refs: Vec<&str> = paths.iter().map(String::as_str).collect();
    InlinkMap::new(&notes, &notes_and(&refs, extra))
}

fn sources(map: &InlinkMap, target: &str) -> Vec<String> {
    texts(map.inlinks_of(&path(target)))
}

fn raw(entries: &[(&str, &[&str])]) -> InlinkMap {
    InlinkMap::from_raw(
        entries
            .iter()
            .map(|(target, from)| LinkEntry {
                target: path(target),
                sources: from.iter().map(|source| path(source)).collect(),
            })
            .collect(),
    )
}

#[test]
fn maps_target_to_single_linking_note() {
    let map = build_graph(
        vec![note_with_outlink("a.md", "b", LinkType::Wikilink), parse("b.md", "# B")],
        Vec::new(),
    );
    assert_eq!(sources(&map, "b.md"), vec!["a.md"]);
}

#[test]
fn links_are_written_as_their_files_and_notes() {
    let files = notes_and(&["a//x.md", "n/./b.md"], Vec::new());
    let map = InlinkMap::new(&vec![parse("a//x.md", "[[b]] [b](n/b.md)")], &files);
    assert_eq!(map.len(), 1);
    assert_eq!(map.iter()[0].target.to_text(), "n/./b.md");
    assert_eq!(texts(map.inlinks_of(&path("n/b.md"))), vec!["a//x.md"]);
}

#[test]
fn maps_target_to_every_linking_note() {
    let map = build_graph(
        vec![
            note_with_outlink("a.md", "target", LinkType::Wikilink),
            note_with_outlink("b.md", "target", LinkType::Wikilink),
            parse("target.md", "# Target"),
        ],
        Vec::new(),
    );
    assert_eq!(sources(&map, "target.md"), vec!["a.md", "b.md"]);
}

#[test]
fn collapses_duplicate_outlinks_within_one_note_to_one_edge() {
    let map = build_graph(
        vec![parse("a.md", "[[b]] and [[b]] again"), parse("b.md", "# B")],
        Vec::new(),
    );
    assert_eq!(sources(&map, "b.md"), vec!["a.md"]);
}

#[test]
fn records_self_link_without_corrupting_other_edges() {
    let map = build_graph(
        vec![
            note_with_outlink("a.md", "a", LinkType::Wikilink),
            note_with_outlink("b.md", "a", LinkType::Wikilink),
        ],
        Vec::new(),
    );
    assert_eq!(sources(&map, "a.md"), vec!["a.md", "b.md"]);
}

#[test]
fn omits_notes_with_no_inbound_links() {
    let map = build_graph(vec![parse("lonely.md", "# Lonely")], Vec::new());
    assert!(!map.has_target(&path("lonely.md")));
    assert!(sources(&map, "lonely.md").is_empty());
}

#[test]
fn ignores_outlinks_that_do_not_resolve_to_any_file() {
    let map = build_graph(
        vec![note_with_outlink("a.md", "https://example.com", LinkType::Markdown)],
        Vec::new(),
    );
    assert!(map.is_empty());
    assert_eq!(map.len(), 0);
}

#[test]
fn resolves_ambiguous_wikilink_to_nearest_note() {
    let map = build_graph(
        vec![
            note_with_outlink("notes/a/linking.md", "note", LinkType::Wikilink),
            parse("notes/a/note.md", "# Near"),
            parse("notes/b/note.md", "# Far"),
        ],
        Vec::new(),
    );
    assert_eq!(sources(&map, "notes/a/note.md"), vec!["notes/a/linking.md"]);
    assert!(sources(&map, "notes/b/note.md").is_empty());
}

#[test]
fn indexes_non_note_attachments_as_inlink_targets() {
    let map = build_graph(
        vec![
            note_with_outlink("note1.md", "chart.png", LinkType::Wikilink),
            note_with_outlink("note2.md", "chart.png", LinkType::Wikilink),
        ],
        vec![attachment("images/chart.png")],
    );
    assert_eq!(sources(&map, "images/chart.png"), vec!["note1.md", "note2.md"]);
}

#[test]
fn inbound_sources_are_always_sorted_in_ascending_path_order() {
    let map = build_graph(
        vec![
            note_with_outlink("z.md", "target", LinkType::Wikilink),
            note_with_outlink("a.md", "target", LinkType::Wikilink),
            note_with_outlink("m.md", "target", LinkType::Wikilink),
            parse("target.md", "# Target"),
        ],
        Vec::new(),
    );
    assert_eq!(sources(&map, "target.md"), vec!["a.md", "m.md", "z.md"]);
}

#[test]
fn every_target_in_map_has_at_least_one_source() {
    let map = build_graph(
        vec![
            note_with_outlink("a.md", "target", LinkType::Wikilink),
            parse("target.md", "# Target"),
            parse("standalone.md", "# Standalone"),
        ],
        Vec::new(),
    );
    assert_eq!(map.len(), 1);
    for entry in map.iter() {
        assert!(!entry.sources.is_empty());
    }
}

#[test]
fn inlinks_of_returns_sources_for_known_target() {
    let map = raw(&[("target.md", &["src.md"])]);
    assert_eq!(sources(&map, "target.md"), vec!["src.md"]);
}

#[test]
fn inlinks_of_returns_empty_slice_for_unknown_target() {
    let map = InlinkMap::default();
    assert!(sources(&map, "nonexistent.md").is_empty());
}

#[test]
fn has_target_checks_presence() {
    let map = raw(&[("target.md", &["src.md"])]);
    assert!(map.has_target(&path("target.md")));
    assert!(!map.has_target(&path("other.md")));
}

#[test]
fn iter_and_len_reflect_graph_cardinality() {
    let map = raw(&[("t1.md", &["s1.md"]), ("t2.md", &["s2.md"])]);
    assert_eq!(map.len(), 2);
    assert!(!map.is_empty());
    assert_eq!(map.iter().len(), 2);
}

#[test]
fn into_entries_yields_owned_entries() {
    let entries = raw(&[("target.md", &["source.md"])]).into_entries();
    assert_eq!(entries.len(), 1);
    assert_eq!(entries[0].target.to_text(), "target.md");
    assert_eq!(texts(&entries[0].sources), vec!["source.md"]);
}

#[test]
fn stored_entries_are_put_in_order() {
    let map = raw(&[("b.md", &["y.md", "x.md", "y.md"]), ("a.md", &["z.md"]), ("c.md", &[])]);
    assert_eq!(map.len(), 2);
    let targets: Vec<String> = map.iter().iter().map(|entry| entry.target.to_text()).collect();
    assert_eq!(targets, vec!["a.md", "b.md"]);
    assert_eq!(sources(&map, "b.md"), vec!["x.md", "y.md"]);
}

#[test]
fn removing_the_only_source_drops_the_target() {
    let patched = raw(&[("target.md", &["a.md"])]).without_sources(&vec![path("a.md")]);
    assert!(!patched.has_target(&path("target.md")));
}

#[test]
fn removing_one_of_several_sources_keeps_the_target() {
    let map = raw(&[("target.md", &["a.md", "b.md"])]);
    let patched = map.without_sources(&vec![path("a.md")]);
    assert_eq!(sources(&patched, "target.md"), vec!["b.md"]);
}

#[test]
fn removing_an_absent_source_keeps_the_graph_unchanged() {
    let map = raw(&[("target.md", &["a.md", "b.md"])]);
    let patched = map.without_sources(&vec![path("missing.md")]);
    assert_eq!(sources(&patched, "target.md"), vec!["a.md", "b.md"]);
}

#[test]
fn adding_an_edge_to_an_existing_target_appends_and_resorts() {
    let map = raw(&[("target.md", &["z.md"])]);
    let patched = map.with_edges(vec![(path("target.md"), path("a.md"))]);
    assert_eq!(sources(&patched, "target.md"), vec!["a.md", "z.md"]);
}

#[test]
fn adding_an_edge_to_a_new_target_inserts_the_source() {
    let patched =
        InlinkMap::default().with_edges(vec![(path("target.md"), path("source.md"))]);
    assert_eq!(sources(&patched, "target.md"), vec!["source.md"]);
}

#[test]
fn adding_a_duplicate_edge_keeps_sources_deduplicated() {
    let map = raw(&[("target.md", &["a.md", "z.md"])]);
    let patched = map.with_edges(vec![(path("target.md"), path("a.md"))]);
    assert_eq!(sources(&patched, "target.md"), vec!["a.md", "z.md"]);
}

fn distance(a: &str, b: &str) -> u128 {
    FolderRef::of(&path(a)).distance_to(&FolderRef::of(&path(b)))
}

#[test]
fn same_folder_has_zero_distance() {
    assert_eq!(distance("folder/a.md", "folder/b.md"), 0);
}

#[test]
fn parent_and_child_have_distance_one() {
    assert_eq!(distance("folder/sub/a.md", "folder/b.md"), 1);
    assert_eq!(distance("folder/a.md", "folder/sub/b.md"), 1);
}

#[test]
fn siblings_have_distance_two() {
    assert_eq!(distance("folder/sub1/a.md", "folder/sub2/b.md"), 2);
}

#[test]
fn different_subtrees_step_through_common_ancestor() {
    assert_eq!(distance("a/b/c/file.md", "a/d/e/file.md"), 4);
}

#[test]
fn root_and_nested_folder_compute_correct_distance() {
    assert_eq!(distance("root.md", "a/b/c/nested.md"), 3);
    assert_eq!(distance("a/b/c/nested.md", "root.md"), 3);
}

#[test]
fn resolves_identically_at_the_trie_threshold_boundary() {
    for count in [31, 32] {
        let paths: Vec<String> = (0..count).map(|i| format!("d{i}/note.md")).collect();
        let refs: Vec<&str> = paths.iter().map(String::as_str).collect();
        let files = files_from_notes(&refs);
        assert_eq!(
            resolve(&files, "d0/linking.md", to("note")),
            found("d0/note.md"),
            "candidate count = {count}"
        );
    }
}

#[test]
fn preserves_resolution_order_and_cross_note_duplicate_edges() {
    let notes = vec![
        note_with_outlink("z.md", "b", LinkType::Wikilink),
        note_with_outlink("y.md", "a", LinkType::Wikilink),
        note_with_outlink("w.md", "b", LinkType::Wikilink),
        note_with_outlink("v.md", "missing", LinkType::Wikilink),
    ];
    let files = files_from_notes(&["z.md", "y.md", "w.md", "v.md", "a.md", "b.md"]);
    let edges: Vec<(String, String)> = resolve_edges_for(&notes, &files)
        .iter()
        .map(|(target, source)| (target.to_text(), source.to_text()))
        .collect();
    assert_eq!(
        edges,
        vec![
            ("b.md".to_owned(), "z.md".to_owned()),
            ("a.md".to_owned(), "y.md".to_owned()),
            ("b.md".to_owned(), "w.md".to_owned()),
        ]
    );
}
