//! From Markdown events to the outline of a note.

use vstd::prelude::*;
use vstd::string::*;

use super::events::{event_views, markdown_events, parse_events, EventKind, EventView, KindView, MarkdownEvent};
use super::metadata::RawFrontmatter;
use super::structure::{
    item_views, list_views, CodeRegion, ItemView, LinkType, List, ListItem, ListView, Outlink,
    OutlinkView, TaskStatus,
};
use crate::text::{trim, trimmed};

verus! {

/// How text is gathered for links and list items.
#[derive(Copy, Clone, Debug, PartialEq, Eq, Structural)]
pub enum TextStyle {
    /// Text is kept as it stands. The text of a link belongs to the list item
    /// around it too, and line breaks stay line breaks.
    Verbatim,
    /// Text is trimmed. The text of a link belongs to the link alone, and line
    /// breaks become spaces.
    Compact,
}

/// Contents of an [`Outline`].
pub struct OutlineView {
    /// The text of the frontmatter block.
    pub frontmatter: Option<Seq<char>>,
    /// Lists that are not nested in others.
    pub lists: Seq<ListView>,
    /// Links in document order.
    pub outlinks: Seq<OutlinkView>,
    /// Code in document order.
    pub code_regions: Seq<CodeRegion>,
}

/// Contents of a [`ParserContext`].
pub struct ContextView {
    /// What is complete so far.
    pub done: OutlineView,
    /// A frontmatter block is open.
    pub in_metadata: bool,
    /// Its text so far.
    pub metadata: Seq<char>,
    /// The open link with its text so far.
    pub link: Option<OutlinkView>,
    /// Where the open code block starts.
    pub code_start: Option<usize>,
    /// Open lists with their items so far, outermost first.
    pub open_lists: Seq<ListView>,
    /// Open items with their text and nested lists so far, outermost first.
    pub open_items: Seq<ItemView>,
}

/// Nothing has been read yet.
pub open spec fn empty_context() -> ContextView {
    ContextView {
        done: OutlineView {
            frontmatter: None,
            lists: Seq::empty(),
            outlinks: Seq::empty(),
            code_regions: Seq::empty(),
        },
        in_metadata: false,
        metadata: Seq::empty(),
        link: None,
        code_start: None,
        open_lists: Seq::empty(),
        open_items: Seq::empty(),
    }
}

/// `items` with `text` appended to the innermost.
pub open spec fn with_item_text(items: Seq<ItemView>, text: Seq<char>) -> Seq<ItemView> {
    if items.len() == 0 {
        items
    } else {
        items.drop_last().push(ItemView { text: items.last().text + text, ..items.last() })
    }
}

/// The link with `text` appended to its own.
pub open spec fn with_link_text(link: Option<OutlinkView>, text: Seq<char>) -> Option<OutlinkView> {
    match link {
        Some(open) => Some(OutlinkView { text: open.text + text, ..open }),
        None => None,
    }
}

/// `text` as it is kept in the given style.
pub open spec fn styled(text: Seq<char>, style: TextStyle) -> Seq<char> {
    match style {
        TextStyle::Verbatim => text,
        TextStyle::Compact => trimmed(text),
    }
}

/// The state after a line break in a paragraph.
pub open spec fn after_break(c: ContextView, style: TextStyle) -> ContextView {
    match style {
        TextStyle::Verbatim => if c.in_metadata {
            ContextView { metadata: c.metadata + seq!['\n'], ..c }
        } else {
            ContextView { open_items: with_item_text(c.open_items, seq!['\n']), ..c }
        },
        TextStyle::Compact => ContextView {
            open_items: with_item_text(c.open_items, seq![' ']),
            ..c
        },
    }
}

/// What one event does.
pub open spec fn after_event(c: ContextView, event: EventView, style: TextStyle) -> ContextView {
    match event.kind {
        KindView::StartMetadata => ContextView {
            in_metadata: true,
            metadata: Seq::empty(),
            ..c
        },
        KindView::EndMetadata => ContextView {
            done: OutlineView { frontmatter: Some(c.metadata), ..c.done },
            in_metadata: false,
            metadata: Seq::empty(),
            ..c
        },
        KindView::StartLink(wiki, target) => ContextView {
            link: Some(
                OutlinkView {
                    target,
                    text: Seq::empty(),
                    kind: if wiki {
                        LinkType::Wikilink
                    } else {
                        LinkType::Markdown
                    },
                },
            ),
            ..c
        },
        KindView::EndLink => match c.link {
            Some(open) => ContextView {
                done: OutlineView {
                    outlinks: c.done.outlinks.push(
                        OutlinkView { text: styled(open.text, style), ..open },
                    ),
                    ..c.done
                },
                link: None,
                ..c
            },
            None => c,
        },
        KindView::StartCodeBlock => ContextView { code_start: Some(event.start), ..c },
        KindView::EndCodeBlock => match c.code_start {
            Some(start) => ContextView {
                done: OutlineView {
                    code_regions: c.done.code_regions.push(CodeRegion { start, end: event.end }),
                    ..c.done
                },
                code_start: None,
                ..c
            },
            None => c,
        },
        KindView::Code(text) => ContextView {
            done: OutlineView {
                code_regions: c.done.code_regions.push(
                    CodeRegion { start: event.start, end: event.end },
                ),
                ..c.done
            },
            open_items: with_item_text(c.open_items, text),
            ..c
        },
        KindView::StartList(first) => ContextView {
            open_lists: c.open_lists.push(
                ListView { is_ordered: first is Some, items: Seq::empty() },
            ),
            ..c
        },
        KindView::EndList => if c.open_lists.len() == 0 {
            c
        } else if c.open_items.len() == 0 {
            ContextView {
                done: OutlineView { lists: c.done.lists.push(c.open_lists.last()), ..c.done },
                open_lists: c.open_lists.drop_last(),
                ..c
            }
        } else {
            let item = c.open_items.last();
            ContextView {
                open_lists: c.open_lists.drop_last(),
                open_items: c.open_items.drop_last().push(
                    ItemView { children: item.children.push(c.open_lists.last()), ..item },
                ),
                ..c
            }
        },
        KindView::StartItem => ContextView {
            open_items: c.open_items.push(
                ItemView { text: Seq::empty(), task_status: None, children: Seq::empty() },
            ),
            ..c
        },
        KindView::EndItem => if c.open_items.len() == 0 {
            c
        } else if c.open_lists.len() == 0 {
            ContextView { open_items: c.open_items.drop_last(), ..c }
        } else {
            let item = c.open_items.last();
            let list = c.open_lists.last();
            ContextView {
                open_items: c.open_items.drop_last(),
                open_lists: c.open_lists.drop_last().push(
                    ListView {
                        items: list.items.push(
                            ItemView { text: styled(item.text, style), ..item },
                        ),
                        ..list
                    },
                ),
                ..c
            }
        },
        KindView::TaskMarker(checked) => if c.open_items.len() == 0 {
            c
        } else {
            ContextView {
                open_items: c.open_items.drop_last().push(
                    ItemView {
                        task_status: Some(
                            if checked {
                                TaskStatus::Complete
                            } else {
                                TaskStatus::Incomplete
                            },
                        ),
                        ..c.open_items.last()
                    },
                ),
                ..c
            }
        },
        KindView::Text(text) => if c.in_metadata {
            ContextView { metadata: c.metadata + text, ..c }
        } else if style == TextStyle::Compact && c.link is Some {
            ContextView { link: with_link_text(c.link, text), ..c }
        } else {
            ContextView {
                link: with_link_text(c.link, text),
                open_items: with_item_text(c.open_items, text),
                ..c
            }
        },
        KindView::SoftBreak => after_break(c, style),
        KindView::HardBreak => after_break(c, style),
        KindView::StartParagraph => c,
        KindView::EndParagraph => c,
        KindView::StartHeading => c,
        KindView::EndHeading => c,
        KindView::Other => c,
    }
}

/// What a series of events does.
pub open spec fn after_events(c: ContextView, events: Seq<EventView>, style: TextStyle) -> ContextView
    decreases events.len(),
{
    if events.len() == 0 {
        c
    } else {
        after_event(after_events(c, events.drop_last(), style), events.last(), style)
    }
}

/// The outline of a series of events.
pub open spec fn outline_of(events: Seq<EventView>, style: TextStyle) -> OutlineView {
    after_events(empty_context(), events, style).done
}

/// The frontmatter block, lists, links and code of a Markdown source.
#[derive(Debug)]
pub struct Outline {
    /// The frontmatter block.
    pub frontmatter: Option<RawFrontmatter>,
    /// Lists that are not nested in others.
    pub lists: Vec<List>,
    /// Links in document order.
    pub outlinks: Vec<Outlink>,
    /// Code in document order.
    pub code_regions: Vec<CodeRegion>,
}

/// The contents of each link.
pub open spec fn outlink_views(links: Seq<Outlink>) -> Seq<OutlinkView> {
    Seq::new(links.len(), |i: int| links[i]@)
}

impl View for Outline {
    type V = OutlineView;

    open spec fn view(&self) -> OutlineView {
        OutlineView {
            frontmatter: match self.frontmatter {
                Some(raw) => Some(raw@),
                None => None,
            },
            lists: list_views(self.lists@),
            outlinks: outlink_views(self.outlinks@),
            code_regions: self.code_regions@,
        }
    }
}

/// What has been read of a Markdown source.
struct ParserContext {
    style: TextStyle,
    done: Outline,
    in_metadata: bool,
    metadata: String,
    link: Option<(String, LinkType, String)>,
    code_start: Option<usize>,
    open_lists: Vec<List>,
    open_items: Vec<ListItem>,
}

impl View for ParserContext {
    type V = ContextView;

    closed spec fn view(&self) -> ContextView {
        ContextView {
            done: self.done@,
            in_metadata: self.in_metadata,
            metadata: self.metadata@,
            link: match self.link {
                Some(open) => Some(OutlinkView { target: open.0@, kind: open.1, text: open.2@ }),
                None => None,
            },
            code_start: self.code_start,
            open_lists: list_views(self.open_lists@),
            open_items: item_views(self.open_items@),
        }
    }
}

proof fn lemma_push_item(items: Seq<ListItem>, item: ListItem)
    ensures
        item_views(items.push(item)) == item_views(items).push(item.contents()),
{
    assert(items.push(item).drop_last() =~= items);
}

proof fn lemma_push_list(lists: Seq<List>, list: List)
    ensures
        list_views(lists.push(list)) == list_views(lists).push(list.contents()),
{
    assert(lists.push(list).drop_last() =~= lists);
}

proof fn lemma_pop_item(items: Seq<ListItem>)
    requires
        items.len() > 0,
    ensures
        item_views(items).len() > 0,
        item_views(items).drop_last() == item_views(items.drop_last()),
        item_views(items).last() == items.last().contents(),
{
    assert(item_views(items).drop_last() =~= item_views(items.drop_last()));
}

proof fn lemma_pop_list(lists: Seq<List>)
    requires
        lists.len() > 0,
    ensures
        list_views(lists).len() > 0,
        list_views(lists).drop_last() == list_views(lists.drop_last()),
        list_views(lists).last() == lists.last().contents(),
{
    assert(list_views(lists).drop_last() =~= list_views(lists.drop_last()));
}

impl ParserContext {
    fn new(style: TextStyle) -> (context: Self)
        ensures
            context@ == empty_context(),
            context.style == style,
    {
        let context = ParserContext {
            style,
            done: Outline {
                frontmatter: None,
                lists: Vec::new(),
                outlinks: Vec::new(),
                code_regions: Vec::new(),
            },
            in_metadata: false,
            metadata: String::new(),
            link: None,
            code_start: None,
            open_lists: Vec::new(),
            open_items: Vec::new(),
        };
        assert(context@.done.outlinks =~= Seq::empty());
        context
    }

    /// Appends `text` to the innermost open item.
    fn push_item_text(&mut self, text: &str)
        ensures
            final(self)@ == (ContextView {
                open_items: with_item_text(old(self)@.open_items, text@),
                ..old(self)@
            }),
            final(self).style == old(self).style,
    {
        let ghost before = self.open_items@;
        if let Some(mut item) = self.open_items.pop() {
            proof {
                lemma_pop_item(before);
            }
            item.text.append(text);
            self.open_items.push(item);
            proof {
                lemma_push_item(before.drop_last(), item);
            }
        }
    }

    /// Appends `text` to the open link.
    fn push_link_text(&mut self, text: &str)
        ensures
            final(self)@ == (ContextView {
                link: with_link_text(old(self)@.link, text@),
                ..old(self)@
            }),
            final(self).style == old(self).style,
    {
        if let Some(mut open) = self.link.take() {
            open.2.append(text);
            self.link = Some(open);
        }
    }

    /// Closes the open link.
    fn end_link(&mut self)
        ensures
            forall|start: usize, end: usize|
                final(self)@ == #[trigger] after_event(
                    old(self)@,
                    EventView { kind: KindView::EndLink, start, end },
                    old(self).style,
                ),
            final(self).style == old(self).style,
    {
        if let Some(open) = self.link.take() {
            let link = match self.style {
                TextStyle::Verbatim => Outlink::new(open.0.as_str(), open.2.as_str(), open.1),
                TextStyle::Compact => Outlink::new(
                    open.0.as_str(),
                    trim(open.2.as_str()).as_str(),
                    open.1,
                ),
            };
            self.done.outlinks.push(link);
            assert(outlink_views(self.done.outlinks@) =~= outlink_views(
                old(self).done.outlinks@,
            ).push(link@));
        }
    }

    /// Closes the innermost open list.
    fn end_list(&mut self)
        ensures
            forall|start: usize, end: usize|
                final(self)@ == #[trigger] after_event(
                    old(self)@,
                    EventView { kind: KindView::EndList, start, end },
                    old(self).style,
                ),
            final(self).style == old(self).style,
    {
        let ghost lists = self.open_lists@;
        let ghost items = self.open_items@;
        if let Some(list) = self.open_lists.pop() {
            proof {
                lemma_pop_list(lists);
            }
            if let Some(mut item) = self.open_items.pop() {
                proof {
                    lemma_pop_item(items);
                    lemma_push_list(item.children@, list);
                }
                item.children.push(list);
                self.open_items.push(item);
                proof {
                    lemma_push_item(items.drop_last(), item);
                }
            } else {
                proof {
                    lemma_push_list(self.done.lists@, list);
                }
                self.done.lists.push(list);
            }
        }
    }

    /// Closes the innermost open item.
    fn end_item(&mut self)
        ensures
            forall|start: usize, end: usize|
                final(self)@ == #[trigger] after_event(
                    old(self)@,
                    EventView { kind: KindView::EndItem, start, end },
                    old(self).style,
                ),
            final(self).style == old(self).style,
    {
        let ghost lists = self.open_lists@;
        let ghost items = self.open_items@;
        if let Some(mut item) = self.open_items.pop() {
            proof {
                lemma_pop_item(items);
            }
            match self.style {
                TextStyle::Verbatim => {},
                TextStyle::Compact => {
                    let core = trim(item.text.as_str());
                    item.text = core;
                },
            }
            if let Some(mut list) = self.open_lists.pop() {
                proof {
                    lemma_pop_list(lists);
                    lemma_push_item(list.items@, item);
                }
                list.items.push(item);
                self.open_lists.push(list);
                proof {
                    lemma_push_list(lists.drop_last(), list);
                }
            }
        }
    }

    /// Marks the innermost open item as a task.
    fn set_task_status(&mut self, checked: bool)
        ensures
            forall|start: usize, end: usize|
                final(self)@ == #[trigger] after_event(
                    old(self)@,
                    EventView { kind: KindView::TaskMarker(checked), start, end },
                    old(self).style,
                ),
            final(self).style == old(self).style,
    {
        let ghost items = self.open_items@;
        if let Some(mut item) = self.open_items.pop() {
            proof {
                lemma_pop_item(items);
            }
            item.task_status = Some(
                if checked {
                    TaskStatus::Complete
                } else {
                    TaskStatus::Incomplete
                },
            );
            self.open_items.push(item);
            proof {
                lemma_push_item(items.drop_last(), item);
            }
        }
    }

    /// Takes up a piece of text.
    fn push_text(&mut self, text: &str)
        ensures
            forall|start: usize, end: usize|
                final(self)@ == #[trigger] after_event(
                    old(self)@,
                    EventView { kind: KindView::Text(text@), start, end },
                    old(self).style,
                ),
            final(self).style == old(self).style,
    {
        if self.in_metadata {
            self.metadata.append(text);
            return;
        }
        let to_link_alone = self.link.is_some() && matches!(self.style, TextStyle::Compact);
        self.push_link_text(text);
        if !to_link_alone {
            self.push_item_text(text);
        }
    }

    /// Takes up a line break.
    fn push_break(&mut self)
        ensures
            final(self)@ == after_break(old(self)@, old(self).style),
            final(self).style == old(self).style,
    {
        proof {
            reveal_strlit("\n");
            reveal_strlit(" ");
            assert("\n"@ =~= seq!['\n']);
            assert(" "@ =~= seq![' ']);
        }
        match self.style {
            TextStyle::Verbatim => {
                if self.in_metadata {
                    self.metadata.append("\n");
                } else {
                    self.push_item_text("\n");
                }
            },
            TextStyle::Compact => {
                self.push_item_text(" ");
            },
        }
    }

    /// Takes up one event.
    fn handle_event(&mut self, event: &MarkdownEvent)
        ensures
            final(self)@ == after_event(old(self)@, event@, old(self).style),
            final(self).style == old(self).style,
    {
        match &event.kind {
            EventKind::StartMetadata => {
                self.in_metadata = true;
                self.metadata = String::new();
            },
            EventKind::EndMetadata => {
                self.in_metadata = false;
                self.done.frontmatter = Some(RawFrontmatter::new(self.metadata.as_str()));
                self.metadata = String::new();
            },
            EventKind::StartLink(wiki, target) => {
                let kind = if *wiki {
                    LinkType::Wikilink
                } else {
                    LinkType::Markdown
                };
                self.link = Some((target.clone(), kind, String::new()));
            },
            EventKind::EndLink => self.end_link(),
            EventKind::StartCodeBlock => {
                self.code_start = Some(event.start);
            },
            EventKind::EndCodeBlock => {
                if let Some(start) = self.code_start.take() {
                    self.done.code_regions.push(CodeRegion::new(start, event.end));
                }
            },
            EventKind::Code(text) => {
                self.done.code_regions.push(CodeRegion::new(event.start, event.end));
                self.push_item_text(text.as_str());
            },
            EventKind::StartList(first) => {
                let list = List::new(first.is_some(), Vec::new());
                proof {
                    lemma_push_list(self.open_lists@, list);
                }
                self.open_lists.push(list);
            },
            EventKind::EndList => self.end_list(),
            EventKind::StartItem => {
                let item = ListItem {
                    text: String::new(),
                    task_status: None,
                    children: Vec::new(),
                };
                proof {
                    lemma_push_item(self.open_items@, item);
                }
                self.open_items.push(item);
            },
            EventKind::EndItem => self.end_item(),
            EventKind::TaskMarker(checked) => self.set_task_status(*checked),
            EventKind::Text(text) => self.push_text(text.as_str()),
            EventKind::SoftBreak => self.push_break(),
            EventKind::HardBreak => self.push_break(),
            EventKind::StartParagraph | EventKind::EndParagraph => {},
            EventKind::StartHeading | EventKind::EndHeading => {},
            EventKind::Other => {},
        }
    }
}

/// Walks over `events` and gathers the outline.
pub fn outline_events(events: &Vec<MarkdownEvent>, style: TextStyle) -> (outline: Outline)
    ensures
        outline@ == outline_of(event_views(events@), style),
{
    let mut context = ParserContext::new(style);
    let ghost views = event_views(events@);
    assert(views.take(0) =~= Seq::empty());
    let mut i: usize = 0;
    while i < events.len()
        invariant
            i <= events@.len(),
            views == event_views(events@),
            context.style == style,
            context@ == after_events(empty_context(), views.take(i as int), style),
        decreases events@.len() - i,
    {
        context.handle_event(&events[i]);
        proof {
            let next = views.take(i + 1);
            assert(next.drop_last() =~= views.take(i as int));
            assert(next.last() == events@[i as int]@);
        }
        i = i + 1;
    }
    assert(views.take(i as int) =~= views);
    context.done
}

/// The outline of a Markdown source, with task lists, YAML frontmatter and
/// wikilinks.
pub fn parse_outline(source: &str, style: TextStyle) -> (outline: Outline)
    ensures
        outline@ == outline_of(markdown_events(source@, true, true, true), style),
{
    let events = parse_events(source, true, true, true);
    outline_events(&events, style)
}

/// `more` begins with all of `some`.
pub open spec fn extends<A>(more: Seq<A>, some: Seq<A>) -> bool {
    some.len() <= more.len() && more.take(some.len() as int) == some
}

/// Lists, links and code that are complete stay as they are, whatever follows.
pub proof fn law_done_only_grows(c: ContextView, events: Seq<EventView>, style: TextStyle)
    ensures
        extends(after_events(c, events, style).done.lists, c.done.lists),
        extends(after_events(c, events, style).done.outlinks, c.done.outlinks),
        extends(after_events(c, events, style).done.code_regions, c.done.code_regions),
    decreases events.len(),
{
    if events.len() == 0 {
        assert(c.done.lists.take(c.done.lists.len() as int) =~= c.done.lists);
        assert(c.done.outlinks.take(c.done.outlinks.len() as int) =~= c.done.outlinks);
        assert(c.done.code_regions.take(c.done.code_regions.len() as int) =~= c.done.code_regions);
    } else {
        law_done_only_grows(c, events.drop_last(), style);
        let before = after_events(c, events.drop_last(), style).done;
        let after = after_events(c, events, style).done;
        assert(after.lists.take(c.done.lists.len() as int) =~= before.lists.take(
            c.done.lists.len() as int,
        ));
        assert(after.outlinks.take(c.done.outlinks.len() as int) =~= before.outlinks.take(
            c.done.outlinks.len() as int,
        ));
        assert(after.code_regions.take(c.done.code_regions.len() as int)
            =~= before.code_regions.take(c.done.code_regions.len() as int));
    }
}

/// The text of a link inside a list item is part of the item's text too, where
/// text is kept as it stands.
pub proof fn law_link_text_is_item_text(c: ContextView, event: EventView)
    requires
        event.kind is Text,
        !c.in_metadata,
        c.link is Some,
        c.open_items.len() > 0,
    ensures
        ({
            let after = after_event(c, event, TextStyle::Verbatim);
            &&& after.link.unwrap().text == c.link.unwrap().text + event.kind->Text_0
            &&& after.open_items.last().text == c.open_items.last().text + event.kind->Text_0
        }),
{
}

} // verus!
