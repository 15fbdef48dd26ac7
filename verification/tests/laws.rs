//! What holds across several functions, on concrete values.

use traces::field::key::FieldKey;
use traces::field::suggest::edit_distance;
use traces::file::FileBase;
use traces::index::epochs::{ParseEpoch, TaskConfig};
use traces::index::links::{FolderRef, LinkResolver, LinkTarget};
use traces::index::sort::SortedByPath;
use traces::note::document::parse_markdown;
use traces::note::events::{EventKind, MarkdownEvent};
use traces::note::parser::{outline_events, TextStyle};
use traces::note::value::FieldValue;
use traces::number::{Number, NumberWords, Order};
use traces::path::FilePath;
use traces::query::filter::FilterExpr;
use traces::query::operators::CompareOp;
use traces::query::record::IndexRecord;
use traces::query::sort::sort_key_order;

fn number(value: f64) -> FieldValue {
    FieldValue::Number(Number::new(value.to_bits(), value.to_string()))
}

fn text(value: &str) -> FieldValue {
    FieldValue::String(value.to_owned())
}

#[test]
fn canonical_forms_are_stable() {
    for raw in ["Time Played", "due date", "field-name!", "my_field", "!!!", "\u{c9}t\u{c9}"] {
        let once = FieldKey::canonicalize(raw);
        assert_eq!(FieldKey::canonicalize(&once), once);
        assert_eq!(FieldKey::is_canonical_empty(raw), once.is_empty());
    }
}

#[test]
fn canonical_forms_go_piece_by_piece() {
    let pieces = ["Time ", " Played!", "", "\u{c9}t\u{c9}", "a  b"];
    for a in pieces {
        for b in pieces {
            let joined = FieldKey::canonicalize(&format!("{a}{b}"));
            assert_eq!(
                joined,
                format!("{}{}", FieldKey::canonicalize(a), FieldKey::canonicalize(b))
            );
        }
    }
    assert_eq!(FieldKey::canonicalize("a  b"), "a--b");
}

#[test]
fn keys_match_by_canonical_form() {
    let key = FieldKey::try_new("Due Date!").expect("key");
    for candidate in ["Due Date!", "due-date", "DUE DATE", "due date?", "duedate", ""] {
        let same = FieldKey::canonicalize(candidate) == key.canonical();
        assert_eq!(key.is_match(candidate), same, "{candidate}");
        assert_eq!(key.is_canonical_match(candidate), same, "{candidate}");
    }
}

#[test]
fn canonical_forms_ignore_case() {
    assert_eq!(FieldKey::canonicalize("STATUS"), FieldKey::canonicalize("status"));
    assert_ne!(FieldKey::canonicalize("status"), FieldKey::canonicalize("state"));
}

#[test]
fn edit_distance_takes_no_shortcuts() {
    let words = ["kitten", "sitting", "mitten", ""];
    for a in words {
        for b in words {
            for c in words {
                assert!(edit_distance(a, c) <= edit_distance(a, b) + edit_distance(b, c));
            }
        }
    }
}

#[test]
fn folder_distance_takes_no_shortcuts() {
    let folders = ["x.md", "a/x.md", "a/b/x.md", "c/x.md"];
    let of = |at: &str| FolderRef::of(&FilePath::new(at));
    for a in folders {
        for b in folders {
            assert_eq!(of(a).distance_to(&of(b)), of(b).distance_to(&of(a)));
            for c in folders {
                assert!(
                    of(a).distance_to(&of(c))
                        <= of(a).distance_to(&of(b)) + of(b).distance_to(&of(c))
                );
            }
        }
    }
}

#[test]
fn exact_paths_win_over_nearer_names() {
    let files = SortedByPath::sorted(vec![
        FileBase::note_for_test("note.md"),
        FileBase::note_for_test("a/note.md"),
    ]);
    let found = LinkResolver::new(&files)
        .resolve(&FilePath::new("a/linking.md"), &LinkTarget::parse("note.md"));
    assert_eq!(found.map(|path| path.to_text()), Some("note.md".to_owned()));
}

#[test]
fn null_satisfies_only_not_equal() {
    let ops = [
        (CompareOp::Eq, false),
        (CompareOp::Ne, true),
        (CompareOp::Lt, false),
        (CompareOp::Le, false),
        (CompareOp::Gt, false),
        (CompareOp::Ge, false),
    ];
    for (op, expected) in ops {
        assert_eq!(op.is_satisfied_by(&FieldValue::Null, &number(1.0)), expected);
    }
}

#[test]
fn values_without_an_order_satisfy_no_ordering() {
    for op in [CompareOp::Lt, CompareOp::Le, CompareOp::Gt, CompareOp::Ge] {
        assert!(!op.is_satisfied_by(&text("a"), &number(1.0)));
        assert!(!op.is_satisfied_by(&number(f64::NAN), &number(1.0)));
    }
}

#[test]
fn logical_arms_are_flat_and_left_to_right() {
    let numbers = NumberWords::new();
    let row = |source: &str| {
        IndexRecord::new(
            FileBase::note_for_test("a.md"),
            parse_markdown(FilePath::new("a.md"), source),
        )
    };
    let expr = "a == true AND b == true OR c == true";
    let both = FilterExpr::parse(expr, &numbers).expect("valid filter");
    assert!(both.matches(&row("---\na: true\nb: true\n---")));
    assert!(both.matches(&row("---\nc: true\n---")));
    assert!(!both.matches(&row("---\na: true\n---")));
}

#[test]
fn sort_keys_have_one_order() {
    let keys = [FieldValue::Null, FieldValue::Bool(true), number(1.0), number(2.0), text("a")];
    for a in &keys {
        for b in &keys {
            let forth = sort_key_order(a, b, false);
            assert_eq!(sort_key_order(b, a, false), forth.reverse());
            for c in &keys {
                if forth == Order::Less && sort_key_order(b, c, false) == Order::Less {
                    assert_eq!(sort_key_order(a, c, false), Order::Less);
                }
            }
        }
    }
}

#[test]
fn more_events_take_nothing_back() {
    let events = || {
        vec![
            MarkdownEvent { kind: EventKind::StartLink(false, "a".to_owned()), start: 0, end: 5 },
            MarkdownEvent { kind: EventKind::EndLink, start: 0, end: 5 },
            MarkdownEvent { kind: EventKind::Code("x".to_owned()), start: 6, end: 9 },
            MarkdownEvent { kind: EventKind::StartLink(false, "b".to_owned()), start: 9, end: 12 },
            MarkdownEvent { kind: EventKind::EndLink, start: 9, end: 12 },
        ]
    };
    let mut shown: Vec<String> = Vec::new();
    for n in 0..=5 {
        let some: Vec<MarkdownEvent> = events().into_iter().take(n).collect();
        let outline = outline_events(&some, TextStyle::Compact);
        let targets: Vec<String> =
            outline.outlinks.iter().map(|link| link.target().to_owned()).collect();
        assert!(targets.starts_with(&shown));
        shown = targets;
    }
    assert_eq!(shown, vec!["a", "b"]);
}

#[test]
fn stored_settings_are_read_back() {
    let epoch = ParseEpoch::from_config(&TaskConfig::default());
    let row = epoch.encode().expect("a row");
    assert_eq!(row, vec![2, 1, b' ', 0, 1, b'x', 1, 0]);
    assert!(ParseEpoch::decode(&row).expect("settings").same(&epoch));
}
