//! The plain texts of a note: what is read for tags and inline fields.

use vstd::prelude::*;

use crate::note::events::{EventView, KindView};
use crate::note::inline::{inline_fields, tags_from, without_places};
use crate::note::texts::{
    fields_in, gathered, gathered_after, lemma_gathered_joined, tags_in, GatheredView,
};
use crate::number::NumberView;

verus! {

/// The event stands inside of a line or opens or closes a list.
pub open spec fn is_within_text(kind: KindView) -> bool {
    kind is Text || kind is SoftBreak || kind is HardBreak || kind is Code || kind is StartLink
        || kind is EndLink || kind is StartList || kind is EndList || kind is TaskMarker
        || kind is Other
}

/// All events stand inside of a line.
pub open spec fn are_within_text(events: Seq<EventView>) -> bool {
    forall|i: int| 0 <= i < events.len() ==> is_within_text((#[trigger] events[i]).kind)
}

/// What the events write: their texts, and a line break for each end of a line.
pub open spec fn written_by(events: Seq<EventView>) -> Seq<char>
    decreases events.len(),
{
    if events.len() == 0 {
        Seq::empty()
    } else {
        written_by(events.drop_last()) + match events.last().kind {
            KindView::Text(text) => text,
            KindView::SoftBreak => seq!['\n'],
            KindView::HardBreak => seq!['\n'],
            _ => Seq::empty(),
        }
    }
}

/// Neither frontmatter nor code is being read.
pub open spec fn reads_prose(c: GatheredView) -> bool {
    &&& !c.in_metadata
    &&& !c.in_code
}

proof fn lemma_within(c: GatheredView, events: Seq<EventView>, i: int)
    requires
        reads_prose(c),
        are_within_text(events),
        0 <= i < c.texts.len(),
        (c.items.len() > 0 && c.items.last() == i) || (c.items.len() == 0 && c.block == Some(i)),
    ensures
        gathered(c, events) == (GatheredView {
            texts: c.texts.update(i, c.texts[i] + written_by(events)),
            ..c
        }),
    decreases events.len(),
{
    if events.len() == 0 {
        assert(c.texts[i] + written_by(events) =~= c.texts[i]);
        assert(c.texts.update(i, c.texts[i]) =~= c.texts);
    } else {
        let front = events.drop_last();
        assert(is_within_text(events[events.len() - 1].kind));
        assert forall|k: int| 0 <= k < front.len() implies is_within_text(
            (#[trigger] front[k]).kind,
        ) by {
            assert(front[k] == events[k]);
        }
        lemma_within(c, front, i);
        let so_far = gathered(c, front);
        let all = gathered_after(so_far, events.last().kind);
        let wanted = c.texts.update(i, c.texts[i] + written_by(events));
        assert(c.texts[i] + written_by(events) =~= so_far.texts[i] + (match events.last().kind {
            KindView::Text(text) => text,
            KindView::SoftBreak => seq!['\n'],
            KindView::HardBreak => seq!['\n'],
            _ => Seq::empty(),
        }));
        assert(all.texts =~= wanted);
    }
}

proof fn lemma_one(c: GatheredView, event: EventView)
    ensures
        gathered(c, seq![event]) == gathered_after(c, event.kind),
{
    assert(seq![event].drop_last() =~= Seq::empty());
    assert(gathered(c, Seq::empty()) == c);
}

/// A paragraph or a heading outside of lists is one text: all that is written in
/// it, with a line break where a line ends.
pub proof fn law_paragraphs_are_texts(
    c: GatheredView,
    start: EventView,
    inner: Seq<EventView>,
    end: EventView,
)
    requires
        reads_prose(c),
        c.items.len() == 0,
        start.kind is StartParagraph || start.kind is StartHeading,
        end.kind is EndParagraph || end.kind is EndHeading,
        are_within_text(inner),
    ensures
        gathered(c, seq![start] + inner + seq![end]) == (GatheredView {
            texts: c.texts.push(written_by(inner)),
            block: None,
            ..c
        }),
{
    let opened = gathered(c, seq![start]);
    lemma_one(c, start);
    let n = c.texts.len() as int;
    lemma_within(opened, inner, n);
    lemma_gathered_joined(c, seq![start], inner);
    let filled = gathered(opened, inner);
    lemma_gathered_joined(c, seq![start] + inner, seq![end]);
    lemma_one(filled, end);
    assert(Seq::<char>::empty() + written_by(inner) =~= written_by(inner));
    assert(filled.texts =~= c.texts.push(written_by(inner)));
}

/// A list item is one text, and an item nested in it another: what is written
/// behind the nested item goes on with the text of the outer one.
pub proof fn law_items_are_texts(
    c: GatheredView,
    start: EventView,
    before: Seq<EventView>,
    inner_start: EventView,
    inner: Seq<EventView>,
    inner_end: EventView,
    after: Seq<EventView>,
    end: EventView,
)
    requires
        reads_prose(c),
        start.kind is StartItem && inner_start.kind is StartItem,
        end.kind is EndItem && inner_end.kind is EndItem,
        are_within_text(before) && are_within_text(inner) && are_within_text(after),
    ensures
        gathered(
            c,
            seq![start] + before + seq![inner_start] + inner + seq![inner_end] + after + seq![end],
        ) == (GatheredView {
            texts: c.texts.push(written_by(before) + written_by(after)).push(written_by(inner)),
            ..c
        }),
{
    let n = c.texts.len() as int;
    let none = Seq::<char>::empty();
    let e1 = seq![start];
    let c1 = gathered(c, e1);
    lemma_one(c, start);
    let e2 = e1 + before;
    let c2 = gathered(c, e2);
    lemma_gathered_joined(c, e1, before);
    lemma_within(c1, before, n);
    assert(none + written_by(before) =~= written_by(before));
    assert(c2.texts =~= c.texts.push(written_by(before)));
    let e3 = e2 + seq![inner_start];
    let c3 = gathered(c, e3);
    lemma_gathered_joined(c, e2, seq![inner_start]);
    lemma_one(c2, inner_start);
    let e4 = e3 + inner;
    let c4 = gathered(c, e4);
    lemma_gathered_joined(c, e3, inner);
    lemma_within(c3, inner, n + 1);
    assert(none + written_by(inner) =~= written_by(inner));
    assert(c4.texts =~= c.texts.push(written_by(before)).push(written_by(inner)));
    let e5 = e4 + seq![inner_end];
    let c5 = gathered(c, e5);
    lemma_gathered_joined(c, e4, seq![inner_end]);
    lemma_one(c4, inner_end);
    assert(c5.items =~= c.items.push(n));
    let e6 = e5 + after;
    let c6 = gathered(c, e6);
    lemma_gathered_joined(c, e5, after);
    lemma_within(c5, after, n);
    assert(c6.texts =~= c.texts.push(written_by(before) + written_by(after)).push(
        written_by(inner),
    ));
    lemma_gathered_joined(c, e6, seq![end]);
    lemma_one(c6, end);
    assert(c.items.push(n).drop_last() =~= c.items);
}

/// The paragraphs of a list item are one text, with a line break between them.
pub proof fn law_paragraphs_of_an_item_are_one_text(
    c: GatheredView,
    start: EventView,
    open: EventView,
    first: Seq<EventView>,
    close: EventView,
    second: Seq<EventView>,
    end: EventView,
)
    requires
        reads_prose(c),
        start.kind is StartItem,
        open.kind is StartParagraph,
        close.kind is EndParagraph,
        end.kind is EndItem,
        are_within_text(first) && are_within_text(second),
    ensures
        gathered(
            c,
            seq![start] + seq![open] + first + seq![close] + seq![open] + second + seq![close]
                + seq![end],
        ) == (GatheredView {
            texts: c.texts.push(
                if written_by(first).len() == 0 {
                    written_by(second)
                } else {
                    written_by(first) + seq!['\n'] + written_by(second)
                },
            ),
            block: None,
            ..c
        }),
{
    let n = c.texts.len() as int;
    let none = Seq::<char>::empty();
    let e1 = seq![start];
    let c1 = gathered(c, e1);
    lemma_one(c, start);
    let e2 = e1 + seq![open];
    let c2 = gathered(c, e2);
    lemma_gathered_joined(c, e1, seq![open]);
    lemma_one(c1, open);
    let e3 = e2 + first;
    let c3 = gathered(c, e3);
    lemma_gathered_joined(c, e2, first);
    lemma_within(c2, first, n);
    assert(none + written_by(first) =~= written_by(first));
    assert(c3.texts =~= c.texts.push(written_by(first)));
    let e4 = e3 + seq![close];
    let c4 = gathered(c, e4);
    lemma_gathered_joined(c, e3, seq![close]);
    lemma_one(c3, close);
    let e5 = e4 + seq![open];
    let c5 = gathered(c, e5);
    lemma_gathered_joined(c, e4, seq![open]);
    lemma_one(c4, open);
    let e6 = e5 + second;
    let c6 = gathered(c, e6);
    lemma_gathered_joined(c, e5, second);
    lemma_within(c5, second, n);
    let whole = if written_by(first).len() == 0 {
        written_by(second)
    } else {
        written_by(first) + seq!['\n'] + written_by(second)
    };
    assert(c6.texts[n] =~= whole);
    assert(c6.texts =~= c.texts.push(whole));
    let e7 = e6 + seq![close];
    let c7 = gathered(c, e7);
    lemma_gathered_joined(c, e6, seq![close]);
    lemma_one(c6, close);
    lemma_gathered_joined(c, e7, seq![end]);
    lemma_one(c7, end);
    assert(c.items.push(n).drop_last() =~= c.items);
}

/// Frontmatter is in no text.
pub proof fn law_frontmatter_is_in_no_text(
    c: GatheredView,
    start: EventView,
    text: EventView,
    end: EventView,
)
    requires
        !c.in_metadata,
        start.kind is StartMetadata,
        text.kind is Text,
        end.kind is EndMetadata,
    ensures
        gathered(c, seq![start] + seq![text] + seq![end]) == c,
{
    let c1 = gathered(c, seq![start]);
    lemma_one(c, start);
    lemma_gathered_joined(c, seq![start], seq![text]);
    let c2 = gathered(c1, seq![text]);
    lemma_one(c1, text);
    lemma_gathered_joined(c, seq![start] + seq![text], seq![end]);
    lemma_one(c2, end);
}

/// Tags and fields are read text by text: those of the first texts, then those of
/// the others.
pub proof fn law_tags_and_fields_go_text_by_text(
    first: Seq<Seq<char>>,
    second: Seq<Seq<char>>,
    one: Seq<char>,
    numbers: Seq<(Seq<char>, NumberView)>,
)
    ensures
        tags_in(first + second) == tags_in(first) + tags_in(second),
        tags_in(seq![one]) == tags_from(one, 0),
        fields_in(first + second, numbers) == fields_in(first, numbers) + fields_in(
            second,
            numbers,
        ),
        fields_in(seq![one], numbers) == without_places(inline_fields(one, numbers)),
    decreases second.len(),
{
    let none = Seq::<Seq<char>>::empty();
    assert(seq![one].drop_last() =~= none);
    assert(seq![one].last() == one);
    assert(tags_in(none) =~= Seq::empty());
    assert(fields_in(none, numbers) =~= Seq::empty());
    assert(tags_in(seq![one]) =~= tags_from(one, 0));
    assert(fields_in(seq![one], numbers) =~= without_places(inline_fields(one, numbers)));
    if second.len() == 0 {
        assert(first + second =~= first);
        assert(tags_in(second) =~= Seq::empty());
        assert(fields_in(second, numbers) =~= Seq::empty());
    } else {
        law_tags_and_fields_go_text_by_text(first, second.drop_last(), one, numbers);
        assert((first + second).drop_last() =~= first + second.drop_last());
        assert((first + second).last() == second.last());
        assert(tags_in(first + second) =~= tags_in(first) + tags_in(second));
        assert(fields_in(first + second, numbers) =~= fields_in(first, numbers) + fields_in(
            second,
            numbers,
        ));
    }
}

} // verus!
