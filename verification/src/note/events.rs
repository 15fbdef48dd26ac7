//! Markdown events as plain values.

use pulldown_cmark::{Event, LinkType, Options, Parser, Tag, TagEnd};
use vstd::prelude::*;

verus! {

/// What happens at one place of a Markdown source.
#[derive(Debug)]
pub enum EventKind {
    /// A frontmatter block begins.
    StartMetadata,
    /// A frontmatter block ends.
    EndMetadata,
    /// A link begins: whether it is a wikilink, and its target.
    StartLink(bool, String),
    /// A link ends.
    EndLink,
    /// A code block begins.
    StartCodeBlock,
    /// A code block ends.
    EndCodeBlock,
    /// Inline code.
    Code(String),
    /// A paragraph begins.
    StartParagraph,
    /// A paragraph ends.
    EndParagraph,
    /// A heading begins.
    StartHeading,
    /// A heading ends.
    EndHeading,
    /// A list begins: its first number, where it is numbered.
    StartList(Option<u64>),
    /// A list ends.
    EndList,
    /// A list item begins.
    StartItem,
    /// A list item ends.
    EndItem,
    /// A task marker: whether it is checked.
    TaskMarker(bool),
    /// Text.
    Text(String),
    /// A line ends inside a paragraph.
    SoftBreak,
    /// A line is broken inside a paragraph.
    HardBreak,
    /// Anything else.
    Other,
}

/// An event and the source bytes it covers.
#[derive(Debug)]
pub struct MarkdownEvent {
    /// What happens.
    pub kind: EventKind,
    /// First byte.
    pub start: usize,
    /// One past the last byte.
    pub end: usize,
}

/// Contents of an [`EventKind`].
pub enum KindView {
    /// A frontmatter block begins.
    StartMetadata,
    /// A frontmatter block ends.
    EndMetadata,
    /// A link begins.
    StartLink(bool, Seq<char>),
    /// A link ends.
    EndLink,
    /// A code block begins.
    StartCodeBlock,
    /// A code block ends.
    EndCodeBlock,
    /// Inline code.
    Code(Seq<char>),
    /// A paragraph begins.
    StartParagraph,
    /// A paragraph ends.
    EndParagraph,
    /// A heading begins.
    StartHeading,
    /// A heading ends.
    EndHeading,
    /// A list begins.
    StartList(Option<u64>),
    /// A list ends.
    EndList,
    /// A list item begins.
    StartItem,
    /// A list item ends.
    EndItem,
    /// A task marker.
    TaskMarker(bool),
    /// Text.
    Text(Seq<char>),
    /// A line ends inside a paragraph.
    SoftBreak,
    /// A line is broken inside a paragraph.
    HardBreak,
    /// Anything else.
    Other,
}

/// Contents of a [`MarkdownEvent`].
pub struct EventView {
    /// What happens.
    pub kind: KindView,
    /// First byte.
    pub start: usize,
    /// One past the last byte.
    pub end: usize,
}

impl View for MarkdownEvent {
    type V = EventView;

    open spec fn view(&self) -> EventView {
        EventView {
            kind: match self.kind {
                EventKind::StartMetadata => KindView::StartMetadata,
                EventKind::EndMetadata => KindView::EndMetadata,
                EventKind::StartLink(wiki, target) => KindView::StartLink(wiki, target@),
                EventKind::EndLink => KindView::EndLink,
                EventKind::StartCodeBlock => KindView::StartCodeBlock,
                EventKind::EndCodeBlock => KindView::EndCodeBlock,
                EventKind::Code(text) => KindView::Code(text@),
                EventKind::StartParagraph => KindView::StartParagraph,
                EventKind::EndParagraph => KindView::EndParagraph,
                EventKind::StartHeading => KindView::StartHeading,
                EventKind::EndHeading => KindView::EndHeading,
                EventKind::StartList(first) => KindView::StartList(first),
                EventKind::EndList => KindView::EndList,
                EventKind::StartItem => KindView::StartItem,
                EventKind::EndItem => KindView::EndItem,
                EventKind::TaskMarker(checked) => KindView::TaskMarker(checked),
                EventKind::Text(text) => KindView::Text(text@),
                EventKind::SoftBreak => KindView::SoftBreak,
                EventKind::HardBreak => KindView::HardBreak,
                EventKind::Other => KindView::Other,
            },
            start: self.start,
            end: self.end,
        }
    }
}

/// The contents of each event.
pub open spec fn event_views(events: Seq<MarkdownEvent>) -> Seq<EventView> {
    Seq::new(events.len(), |i: int| events[i]@)
}

/// The event type of `pulldown_cmark`, which is only carried from its parser
/// to the conversion below.
#[verifier::external_type_specification]
#[verifier::external_body]
pub struct ExEvent<'a>(pulldown_cmark::Event<'a>);

/// The events that `pulldown_cmark::Parser` yields for `source`, with task
/// lists, YAML metadata blocks and wikilinks switched on or off.
pub uninterp spec fn markdown_events(
    source: Seq<char>,
    tasks: bool,
    metadata: bool,
    wikilinks: bool,
) -> Seq<EventView>;

/// Turns the events for starts that matter here into plain values.
#[verifier::external_body]
fn plain_start(event: Event<'_>) -> (kind: EventKind)
{
    match event {
        Event::Start(Tag::MetadataBlock(_)) => EventKind::StartMetadata,
        Event::Start(Tag::Link { link_type: LinkType::WikiLink { .. }, dest_url, .. }) => {
            EventKind::StartLink(true, dest_url.into_string())
        },
        Event::Start(Tag::Link { dest_url, .. }) => {
            EventKind::StartLink(false, dest_url.into_string())
        },
        Event::Start(Tag::CodeBlock(_)) => EventKind::StartCodeBlock,
        Event::Start(Tag::Paragraph) => EventKind::StartParagraph,
        Event::Start(Tag::Heading { .. }) => EventKind::StartHeading,
        Event::Start(Tag::List(first)) => EventKind::StartList(first),
        Event::Start(Tag::Item) => EventKind::StartItem,
        _ => EventKind::Other,
    }
}

/// Turns the events for ends that matter here into plain values.
#[verifier::external_body]
fn plain_end(event: Event<'_>) -> (kind: EventKind)
{
    match event {
        Event::End(TagEnd::MetadataBlock(_)) => EventKind::EndMetadata,
        Event::End(TagEnd::Link) => EventKind::EndLink,
        Event::End(TagEnd::CodeBlock) => EventKind::EndCodeBlock,
        Event::End(TagEnd::Paragraph) => EventKind::EndParagraph,
        Event::End(TagEnd::Heading(_)) => EventKind::EndHeading,
        Event::End(TagEnd::List(_)) => EventKind::EndList,
        Event::End(TagEnd::Item) => EventKind::EndItem,
        start => plain_start(start),
    }
}

/// Turns the events that matter here into plain values.
#[verifier::external_body]
fn plain_event(event: Event<'_>) -> (kind: EventKind)
{
    match event {
        Event::Code(text) => EventKind::Code(text.into_string()),
        Event::TaskListMarker(checked) => EventKind::TaskMarker(checked),
        Event::Text(text) => EventKind::Text(text.into_string()),
        Event::SoftBreak => EventKind::SoftBreak,
        Event::HardBreak => EventKind::HardBreak,
        bound => plain_end(bound),
    }
}

/// Parses `source` with `pulldown_cmark::Parser::new_ext` and collects the
/// events of its offset iterator, each with its byte range.
#[verifier::external_body]
pub(crate) fn parse_events(source: &str, tasks: bool, metadata: bool, wikilinks: bool) -> (events: Vec<
    MarkdownEvent,
>)
    ensures
        event_views(events@) == markdown_events(source@, tasks, metadata, wikilinks),
{
    let mut options = Options::empty();
    options.set(Options::ENABLE_TASKLISTS, tasks);
    options.set(Options::ENABLE_YAML_STYLE_METADATA_BLOCKS, metadata);
    options.set(Options::ENABLE_WIKILINKS, wikilinks);
    Parser::new_ext(source, options).into_offset_iter().map(|(event, range)| MarkdownEvent {
        kind: plain_event(event), start: range.start, end: range.end,
    }).collect()
}

} // verus!
