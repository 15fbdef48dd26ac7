//! The plain text of a note.
//!
//! Inline fields and tags are looked for in plain text: one text for each
//! paragraph and heading outside of lists, and one for each list item. Neither
//! holds code, be it a block or inside a line, nor frontmatter.

use vstd::prelude::*;
use vstd::string::*;

use super::events::{event_views, markdown_events, parse_events, EventKind, EventView, KindView, MarkdownEvent};
use super::inline::{
    extract_inline_fields, extract_tags, inline_fields, tag_texts, tags_from, without_places,
};
use super::metadata::{field_views, FieldView, MetadataField};
use super::structure::Tag;
use crate::number::{NumberView, NumberWords};
use crate::query::record::string_texts;

verus! {

/// The texts gathered so far.
pub struct GatheredView {
    /// The texts, in the order in which they begin.
    pub texts: Seq<Seq<char>>,
    /// Which texts belong to the list items that are open, the innermost last.
    pub items: Seq<int>,
    /// Which text belongs to the paragraph or heading that is open.
    pub block: Option<int>,
    /// Inside a frontmatter block.
    pub in_metadata: bool,
    /// Inside a code block.
    pub in_code: bool,
}

/// Nothing gathered.
pub open spec fn nothing_gathered() -> GatheredView {
    GatheredView {
        texts: Seq::empty(),
        items: Seq::empty(),
        block: None,
        in_metadata: false,
        in_code: false,
    }
}

/// The text that what is read belongs to.
pub open spec fn open_text(c: GatheredView) -> Option<int> {
    if c.items.len() > 0 {
        Some(c.items.last())
    } else {
        c.block
    }
}

/// What is gathered once `more` was read: the open text goes on with it, unless
/// it is code or frontmatter.
pub open spec fn with_more(c: GatheredView, more: Seq<char>) -> GatheredView {
    match open_text(c) {
        Some(i) if !c.in_metadata && !c.in_code => GatheredView {
            texts: c.texts.update(i, c.texts[i] + more),
            ..c
        },
        _ => c,
    }
}

/// What is gathered once a paragraph or heading began. Inside of a list item it
/// goes on with the text of the item, on a line of its own.
pub open spec fn with_block(c: GatheredView) -> GatheredView {
    if c.items.len() == 0 {
        GatheredView {
            texts: c.texts.push(Seq::empty()),
            block: Some(c.texts.len() as int),
            ..c
        }
    } else if c.texts[c.items.last()].len() == 0 {
        c
    } else {
        with_more(c, seq!['\n'])
    }
}

/// What is gathered after one event.
pub open spec fn gathered_after(c: GatheredView, kind: KindView) -> GatheredView {
    match kind {
        KindView::StartMetadata => GatheredView { in_metadata: true, ..c },
        KindView::EndMetadata => GatheredView { in_metadata: false, ..c },
        KindView::StartCodeBlock => GatheredView { in_code: true, ..c },
        KindView::EndCodeBlock => GatheredView { in_code: false, ..c },
        KindView::StartParagraph => with_block(c),
        KindView::StartHeading => with_block(c),
        KindView::EndParagraph => GatheredView { block: None, ..c },
        KindView::EndHeading => GatheredView { block: None, ..c },
        KindView::StartItem => GatheredView {
            texts: c.texts.push(Seq::empty()),
            items: c.items.push(c.texts.len() as int),
            ..c
        },
        KindView::EndItem => if c.items.len() == 0 {
            c
        } else {
            GatheredView { items: c.items.drop_last(), ..c }
        },
        KindView::Text(text) => with_more(c, text),
        KindView::SoftBreak => with_more(c, seq!['\n']),
        KindView::HardBreak => with_more(c, seq!['\n']),
        _ => c,
    }
}

/// What is gathered after a series of events.
pub open spec fn gathered(c: GatheredView, events: Seq<EventView>) -> GatheredView
    decreases events.len(),
{
    if events.len() == 0 {
        c
    } else {
        gathered_after(gathered(c, events.drop_last()), events.last().kind)
    }
}

/// The plain texts of a series of events.
pub open spec fn texts_of(events: Seq<EventView>) -> Seq<Seq<char>> {
    gathered(nothing_gathered(), events).texts
}

/// The numbers as they are, for contracts.
pub open spec fn as_positions(positions: Seq<usize>) -> Seq<int> {
    Seq::new(positions.len(), |i: int| positions[i] as int)
}

/// The texts gathered so far.
struct Gathered {
    texts: Vec<String>,
    items: Vec<usize>,
    block: Option<usize>,
    in_metadata: bool,
    in_code: bool,
}

impl View for Gathered {
    type V = GatheredView;

    closed spec fn view(&self) -> GatheredView {
        GatheredView {
            texts: string_texts(self.texts@),
            items: as_positions(self.items@),
            block: match self.block {
                Some(i) => Some(i as int),
                None => None,
            },
            in_metadata: self.in_metadata,
            in_code: self.in_code,
        }
    }
}

impl Gathered {
    /// Every open text is there.
    spec fn is_valid(self) -> bool {
        &&& forall|k: int| 0 <= k < self.items@.len() ==> (#[trigger] self.items@[k])
            < self.texts@.len()
        &&& self.block matches Some(i) ==> i < self.texts@.len()
    }

    fn new() -> (c: Self)
        ensures
            c.is_valid(),
            c@ == nothing_gathered(),
    {
        let c = Gathered {
            texts: Vec::new(),
            items: Vec::new(),
            block: None,
            in_metadata: false,
            in_code: false,
        };
        assert(c@.texts =~= Seq::empty());
        assert(c@.items =~= Seq::empty());
        c
    }

    /// Begins a new text.
    fn add_text(&mut self) -> (at: usize)
        requires
            old(self).is_valid(),
        ensures
            final(self).is_valid(),
            final(self)@ == (GatheredView { texts: old(self)@.texts.push(Seq::empty()), ..old(self)@ }),
            at == old(self)@.texts.len(),
            at < final(self).texts@.len(),
            final(self).items@ == old(self).items@,
    {
        let at: usize = self.texts.len();
        let ghost before = self.texts@;
        self.texts.push(String::new());
        assert(string_texts(self.texts@) =~= string_texts(before).push(Seq::empty()));
        at
    }

    fn push_more(&mut self, more: &str)
        requires
            old(self).is_valid(),
        ensures
            final(self).is_valid(),
            final(self)@ == with_more(old(self)@, more@),
    {
        if self.in_metadata || self.in_code {
            return;
        }
        let n: usize = self.items.len();
        let open = if n > 0 {
            assert(self@.items.last() == self.items@[n - 1]);
            Some(self.items[n - 1])
        } else {
            self.block
        };
        if let Some(i) = open {
            let ghost before = self.texts@;
            let mut text = self.texts[i].clone();
            text.append(more);
            self.texts.set(i, text);
            assert(string_texts(self.texts@) =~= string_texts(before).update(
                i as int,
                string_texts(before)[i as int] + more@,
            ));
        }
    }

    fn start_block(&mut self)
        requires
            old(self).is_valid(),
        ensures
            final(self).is_valid(),
            final(self)@ == with_block(old(self)@),
    {
        let n: usize = self.items.len();
        if n == 0 {
            let at = self.add_text();
            self.block = Some(at);
        } else {
            assert(self@.items.last() == self.items@[n - 1]);
            let i: usize = self.items[n - 1];
            assert(self@.texts[i as int] == self.texts@[i as int]@);
            if !self.texts[i].as_str().is_empty() {
                proof {
                    reveal_strlit("\n");
                    assert("\n"@ =~= seq!['\n']);
                }
                self.push_more("\n");
            }
        }
    }

    fn push_break(&mut self)
        requires
            old(self).is_valid(),
        ensures
            final(self).is_valid(),
            final(self)@ == with_more(old(self)@, seq!['\n']),
    {
        proof {
            reveal_strlit("\n");
            assert("\n"@ =~= seq!['\n']);
        }
        self.push_more("\n");
    }

    fn take_up(&mut self, event: &MarkdownEvent)
        requires
            old(self).is_valid(),
        ensures
            final(self).is_valid(),
            final(self)@ == gathered_after(old(self)@, event@.kind),
    {
        match &event.kind {
            EventKind::StartMetadata => {
                self.in_metadata = true;
            },
            EventKind::EndMetadata => {
                self.in_metadata = false;
            },
            EventKind::StartCodeBlock => {
                self.in_code = true;
            },
            EventKind::EndCodeBlock => {
                self.in_code = false;
            },
            EventKind::StartParagraph => self.start_block(),
            EventKind::StartHeading => self.start_block(),
            EventKind::EndParagraph => {
                self.block = None;
            },
            EventKind::EndHeading => {
                self.block = None;
            },
            EventKind::StartItem => {
                let ghost before = self.items@;
                let at = self.add_text();
                self.items.push(at);
                assert(as_positions(self.items@) =~= as_positions(before).push(at as int));
            },
            EventKind::EndItem => {
                let ghost before = self.items@;
                self.items.pop();
                proof {
                    if before.len() > 0 {
                        assert(as_positions(self.items@) =~= as_positions(before).drop_last());
                    } else {
                        assert(self.items@ =~= before);
                    }
                }
            },
            EventKind::Text(text) => self.push_more(text.as_str()),
            EventKind::SoftBreak => self.push_break(),
            EventKind::HardBreak => self.push_break(),
            _ => {},
        }
    }
}

/// The plain text of each paragraph and heading outside of lists, and of each
/// list item, in the order in which they begin. Code and frontmatter are left
/// out.
pub fn metadata_texts(events: &Vec<MarkdownEvent>) -> (texts: Vec<String>)
    ensures
        string_texts(texts@) == texts_of(event_views(events@)),
{
    let ghost views = event_views(events@);
    let mut c = Gathered::new();
    let mut i: usize = 0;
    assert(views.take(0) =~= Seq::empty());
    while i < events.len()
        invariant
            i <= events@.len(),
            views == event_views(events@),
            c.is_valid(),
            c@ == gathered(nothing_gathered(), views.take(i as int)),
        decreases events@.len() - i,
    {
        c.take_up(&events[i]);
        proof {
            let next = views.take(i + 1);
            assert(next.drop_last() =~= views.take(i as int));
            assert(next.last() == events@[i as int]@);
        }
        i = i + 1;
    }
    assert(views.take(i as int) =~= views);
    c.texts
}

/// The plain texts of a Markdown source.
pub fn parse_metadata_texts(source: &str) -> (texts: Vec<String>)
    ensures
        string_texts(texts@) == texts_of(markdown_events(source@, true, true, true)),
{
    let events = parse_events(source, true, true, true);
    metadata_texts(&events)
}

/// The inline fields of each text, one text after the other.
pub open spec fn fields_in(
    texts: Seq<Seq<char>>,
    numbers: Seq<(Seq<char>, NumberView)>,
) -> Seq<FieldView>
    decreases texts.len(),
{
    if texts.len() == 0 {
        Seq::empty()
    } else {
        fields_in(texts.drop_last(), numbers) + without_places(
            inline_fields(texts.last(), numbers),
        )
    }
}

/// The tags of each text, one text after the other.
pub open spec fn tags_in(texts: Seq<Seq<char>>) -> Seq<Seq<char>>
    decreases texts.len(),
{
    if texts.len() == 0 {
        Seq::empty()
    } else {
        tags_in(texts.drop_last()) + tags_from(texts.last(), 0)
    }
}

/// Every inline field of the texts, one text after the other.
pub fn scan_fields(texts: &Vec<String>, numbers: &NumberWords) -> (fields: Vec<MetadataField>)
    ensures
        field_views(fields@) == fields_in(string_texts(texts@), numbers@),
{
    let ghost all = string_texts(texts@);
    let mut fields: Vec<MetadataField> = Vec::new();
    let mut i: usize = 0;
    assert(all.take(0) =~= Seq::empty());
    assert(field_views(fields@) =~= Seq::empty());
    while i < texts.len()
        invariant
            i <= texts@.len(),
            all == string_texts(texts@),
            field_views(fields@) == fields_in(all.take(i as int), numbers@),
        decreases texts@.len() - i,
    {
        let mut found = extract_inline_fields(texts[i].as_str(), numbers);
        let ghost before = fields@;
        let ghost more = found@;
        fields.append(&mut found);
        proof {
            assert(field_views(fields@) =~= field_views(before) + field_views(more));
            assert(all.take(i + 1).drop_last() =~= all.take(i as int));
            assert(all.take(i + 1).last() == texts@[i as int]@);
        }
        i = i + 1;
    }
    assert(all.take(i as int) =~= all);
    fields
}

/// Every tag of the texts, one text after the other.
pub fn scan_tags(texts: &Vec<String>) -> (tags: Vec<Tag>)
    ensures
        tag_texts(tags@) == tags_in(string_texts(texts@)),
{
    let ghost all = string_texts(texts@);
    let mut tags: Vec<Tag> = Vec::new();
    let mut i: usize = 0;
    assert(all.take(0) =~= Seq::empty());
    assert(tag_texts(tags@) =~= Seq::empty());
    while i < texts.len()
        invariant
            i <= texts@.len(),
            all == string_texts(texts@),
            tag_texts(tags@) == tags_in(all.take(i as int)),
        decreases texts@.len() - i,
    {
        let mut found = extract_tags(texts[i].as_str());
        let ghost before = tags@;
        let ghost more = found@;
        tags.append(&mut found);
        proof {
            assert(tag_texts(tags@) =~= tag_texts(before) + tag_texts(more));
            assert(all.take(i + 1).drop_last() =~= all.take(i as int));
            assert(all.take(i + 1).last() == texts@[i as int]@);
        }
        i = i + 1;
    }
    assert(all.take(i as int) =~= all);
    tags
}

pub proof fn lemma_gathered_joined(c: GatheredView, a: Seq<EventView>, b: Seq<EventView>)
    ensures
        gathered(c, a + b) == gathered(gathered(c, a), b),
    decreases b.len(),
{
    if b.len() == 0 {
        assert(a + b =~= a);
    } else {
        assert((a + b).drop_last() =~= a + b.drop_last());
        lemma_gathered_joined(c, a, b.drop_last());
    }
}

proof fn lemma_code_gathers_nothing(c: GatheredView, events: Seq<EventView>)
    requires
        c.in_code,
        forall|i: int| 0 <= i < events.len() ==> (#[trigger] events[i]).kind is Text,
    ensures
        gathered(c, events) == c,
    decreases events.len(),
{
    if events.len() > 0 {
        let front = events.drop_last();
        assert forall|i: int| 0 <= i < front.len() implies (#[trigger] front[i]).kind is Text by {
            assert(front[i] == events[i]);
        }
        lemma_code_gathers_nothing(c, front);
        assert(events.last() == events[events.len() - 1]);
    }
}

/// Code inside a line is in no text: without it the texts are the same.
pub proof fn law_inline_code_is_left_out(
    before: Seq<EventView>,
    code: EventView,
    after: Seq<EventView>,
)
    requires
        code.kind is Code,
    ensures
        texts_of(before + seq![code] + after) == texts_of(before + after),
{
    let c = nothing_gathered();
    lemma_gathered_joined(c, before + seq![code], after);
    lemma_gathered_joined(c, before, after);
    assert((before + seq![code]).drop_last() =~= before);
}

/// A code block is in no text: without it the texts are the same.
pub proof fn law_code_blocks_are_left_out(
    before: Seq<EventView>,
    start: EventView,
    code: Seq<EventView>,
    end: EventView,
    after: Seq<EventView>,
)
    requires
        start.kind is StartCodeBlock,
        end.kind is EndCodeBlock,
        forall|i: int| 0 <= i < code.len() ==> (#[trigger] code[i]).kind is Text,
        !gathered(nothing_gathered(), before).in_code,
    ensures
        texts_of(before + seq![start] + code + seq![end] + after) == texts_of(before + after),
{
    let none = nothing_gathered();
    let opened = before + seq![start];
    let filled = opened + code;
    let closed = filled + seq![end];
    lemma_gathered_joined(none, closed, after);
    lemma_gathered_joined(none, before, after);
    lemma_gathered_joined(none, opened, code);
    assert(opened.drop_last() =~= before);
    assert(closed.drop_last() =~= filled);
    let c = gathered(none, before);
    lemma_code_gathers_nothing(gathered(none, opened), code);
    assert(gathered(none, closed) == c);
}

} // verus!
