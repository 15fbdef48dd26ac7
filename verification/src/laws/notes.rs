//! What is read of a note.

use vstd::prelude::*;

use crate::note::document::note_of_outline;
use crate::note::events::{EventView, KindView};
use crate::note::metadata::fields_of_frontmatter;
use crate::note::parser::{
    after_event, after_events, empty_context, outline_of, styled, ContextView, OutlineView,
    TextStyle,
};
use crate::note::structure::{
    tasks_of_items, tasks_of_lists, CodeRegion, ItemView, LinkType, ListView, OutlinkView,
    TaskStatus,
};
use crate::path::path_parts;
use crate::text::trimmed;

verus! {

/// The item at an address: which list and which item in it, then on among the
/// lists nested under that item.
pub open spec fn item_at(lists: Seq<ListView>, address: Seq<(int, int)>) -> Option<ItemView>
    decreases address.len(),
{
    if address.len() == 0 {
        None
    } else {
        let (i, j) = address[0];
        if 0 <= i < lists.len() && 0 <= j < lists[i].items.len() {
            if address.len() == 1 {
                Some(lists[i].items[j])
            } else {
                item_at(lists[i].items[j].children, address.drop_first())
            }
        } else {
            None
        }
    }
}

/// The item stands in one of the lists, or in a list nested under any of their
/// items, at any depth.
pub open spec fn stands_in(lists: Seq<ListView>, item: ItemView) -> bool {
    exists|address: Seq<(int, int)>| item_at(lists, address) == Some(item)
}

/// All items of the lists and of those nested in them, each before what is
/// nested under it.
pub open spec fn all_items(lists: Seq<ListView>) -> Seq<ItemView>
    decreases lists,
{
    if lists.len() == 0 {
        Seq::empty()
    } else {
        all_items(lists.drop_last()) + items_and_below(lists.last().items)
    }
}

/// The items and all that are nested under them, each before what is nested
/// under it.
pub open spec fn items_and_below(items: Seq<ItemView>) -> Seq<ItemView>
    decreases items,
{
    if items.len() == 0 {
        Seq::empty()
    } else {
        items_and_below(items.drop_last()) + seq![items.last()] + all_items(items.last().children)
    }
}

/// The item is a task, done or not.
pub open spec fn is_task_item() -> spec_fn(ItemView) -> bool {
    |item: ItemView| item.task_status is Some
}

proof fn lemma_one_filtered(item: ItemView)
    ensures
        item.task_status is Some ==> seq![item].filter(is_task_item()) == seq![item],
        item.task_status is None ==> seq![item].filter(is_task_item()) == Seq::<ItemView>::empty(),
{
    reveal(Seq::filter);
    let one = seq![item];
    assert(one.drop_last() =~= Seq::empty());
    assert(one.drop_last().filter(is_task_item()) =~= Seq::empty());
    assert(item.task_status is Some ==> one.filter(is_task_item()) =~= one);
}

/// The tasks of lists are those of all items that are tasks, wherever they are
/// nested, each once and in order.
pub proof fn law_tasks_are_the_items_that_are_tasks(lists: Seq<ListView>)
    ensures
        tasks_of_lists(lists) == all_items(lists).filter(is_task_item()),
    decreases lists,
{
    if lists.len() == 0 {
        reveal(Seq::filter);
        assert(tasks_of_lists(lists) =~= all_items(lists).filter(is_task_item()));
    } else {
        let front = lists.drop_last();
        let items = lists.last().items;
        law_tasks_are_the_items_that_are_tasks(front);
        lemma_tasks_of_items(items);
        Seq::filter_distributes_over_add(all_items(front), items_and_below(items), is_task_item());
    }
}

proof fn lemma_tasks_of_items(items: Seq<ItemView>)
    ensures
        tasks_of_items(items) == items_and_below(items).filter(is_task_item()),
    decreases items,
{
    if items.len() == 0 {
        reveal(Seq::filter);
        assert(tasks_of_items(items) =~= items_and_below(items).filter(is_task_item()));
    } else {
        let front = items.drop_last();
        let item = items.last();
        lemma_tasks_of_items(front);
        law_tasks_are_the_items_that_are_tasks(item.children);
        lemma_one_filtered(item);
        Seq::filter_distributes_over_add(
            items_and_below(front),
            seq![item],
            is_task_item(),
        );
        Seq::filter_distributes_over_add(
            items_and_below(front) + seq![item],
            all_items(item.children),
            is_task_item(),
        );
        assert(tasks_of_items(items) =~= items_and_below(items).filter(is_task_item()));
    }
}

proof fn lemma_item_found(lists: Seq<ListView>, address: Seq<(int, int)>, item: ItemView)
    requires
        item_at(lists, address) == Some(item),
    ensures
        all_items(lists).contains(item),
    decreases address.len(), lists.len(),
{
    let (i, j) = address[0];
    let front = lists.drop_last();
    let all = all_items(lists);
    if i < lists.len() - 1 {
        assert(front[i] == lists[i]);
        assert(item_at(front, address) == Some(item));
        lemma_item_found(front, address, item);
        let k = choose|k: int| 0 <= k < all_items(front).len() && all_items(front)[k] == item;
        assert(all[k] == item);
    } else {
        let items = lists.last().items;
        assert(lists[i] == lists.last());
        if address.len() == 1 {
            lemma_own_item(items, j);
        } else {
            lemma_item_found(items[j].children, address.drop_first(), item);
            lemma_nested_item(items, j, item);
        }
        let own = items_and_below(items);
        let k = choose|k: int| 0 <= k < own.len() && own[k] == item;
        assert(all[all_items(front).len() + k] == item);
    }
}

proof fn lemma_own_item(items: Seq<ItemView>, j: int)
    requires
        0 <= j < items.len(),
    ensures
        items_and_below(items).contains(items[j]),
    decreases items.len(),
{
    let front = items.drop_last();
    let before = items_and_below(front);
    let all = items_and_below(items);
    if j < items.len() - 1 {
        lemma_own_item(front, j);
        let k = choose|k: int| 0 <= k < before.len() && before[k] == items[j];
        assert(all[k] == items[j]);
    } else {
        assert(all[before.len() as int] == items[j]);
    }
}

proof fn lemma_nested_item(items: Seq<ItemView>, j: int, item: ItemView)
    requires
        0 <= j < items.len(),
        all_items(items[j].children).contains(item),
    ensures
        items_and_below(items).contains(item),
    decreases items.len(),
{
    let front = items.drop_last();
    let before = items_and_below(front);
    let all = items_and_below(items);
    if j < items.len() - 1 {
        assert(front[j] == items[j]);
        lemma_nested_item(front, j, item);
        let k = choose|k: int| 0 <= k < before.len() && before[k] == item;
        assert(all[k] == item);
    } else {
        let below = all_items(items[j].children);
        let k = choose|k: int| 0 <= k < below.len() && below[k] == item;
        assert(all[before.len() + 1 + k] == item);
    }
}

proof fn lemma_address_in_front(lists: Seq<ListView>, address: Seq<(int, int)>)
    requires
        lists.len() > 0,
        item_at(lists.drop_last(), address) is Some,
    ensures
        item_at(lists, address) == item_at(lists.drop_last(), address),
{
    assert(lists.drop_last()[address[0].0] == lists[address[0].0]);
}

proof fn lemma_item_stands(lists: Seq<ListView>, item: ItemView) -> (address: Seq<(int, int)>)
    requires
        all_items(lists).contains(item),
    ensures
        item_at(lists, address) == Some(item),
    decreases lists,
{
    let front = lists.drop_last();
    let all = all_items(lists);
    let k = choose|k: int| 0 <= k < all.len() && all[k] == item;
    if k < all_items(front).len() {
        assert(all_items(front)[k] == item);
        let address = lemma_item_stands(front, item);
        lemma_address_in_front(lists, address);
        address
    } else {
        let items = lists.last().items;
        let own = items_and_below(items);
        assert(own[k - all_items(front).len()] == item);
        let (j, below) = lemma_item_below(items, item);
        let at = (lists.len() - 1, j);
        assert(lists[lists.len() - 1] == lists.last());
        let address = seq![at] + below;
        assert(address[0] == at);
        assert(address.drop_first() =~= below);
        address
    }
}

proof fn lemma_item_below(items: Seq<ItemView>, item: ItemView) -> (found: (
    int,
    Seq<(int, int)>,
))
    requires
        items_and_below(items).contains(item),
    ensures
        0 <= found.0 < items.len(),
        found.1.len() == 0 ==> items[found.0] == item,
        found.1.len() > 0 ==> item_at(items[found.0].children, found.1) == Some(item),
    decreases items,
{
    let front = items.drop_last();
    let before = items_and_below(front);
    let all = items_and_below(items);
    let k = choose|k: int| 0 <= k < all.len() && all[k] == item;
    if k < before.len() {
        assert(before[k] == item);
        let found = lemma_item_below(front, item);
        assert(front[found.0] == items[found.0]);
        found
    } else if k == before.len() {
        (items.len() - 1, Seq::empty())
    } else {
        let children = items.last().children;
        assert(all_items(children)[k - before.len() - 1] == item);
        let below = lemma_item_stands(children, item);
        (items.len() - 1, below)
    }
}

/// An item is among the tasks exactly where it is a task and stands in one of
/// the lists or in a list nested at any depth under any item, task or not.
pub proof fn law_tasks_are_found_at_any_depth(lists: Seq<ListView>, item: ItemView)
    ensures
        tasks_of_lists(lists).contains(item) <==> item.task_status is Some && stands_in(
            lists,
            item,
        ),
{
    law_tasks_are_the_items_that_are_tasks(lists);
    let all = all_items(lists);
    let tasks = tasks_of_lists(lists);
    if tasks.contains(item) {
        let k = choose|k: int| 0 <= k < tasks.len() && tasks[k] == item;
        all.lemma_filter_pred(is_task_item(), k);
        lemma_filtered_is_member(all, is_task_item(), k);
        let address = lemma_item_stands(lists, item);
        assert(item_at(lists, address) == Some(item));
    }
    if item.task_status is Some && stands_in(lists, item) {
        let address = choose|address: Seq<(int, int)>| item_at(lists, address) == Some(item);
        lemma_item_found(lists, address, item);
        let k = choose|k: int| 0 <= k < all.len() && all[k] == item;
        all.lemma_filter_contains(is_task_item(), k);
    }
}

proof fn lemma_filtered_is_member<A>(all: Seq<A>, keeps: spec_fn(A) -> bool, k: int)
    requires
        0 <= k < all.filter(keeps).len(),
    ensures
        all.contains(all.filter(keeps)[k]),
    decreases all.len(),
{
    reveal(Seq::filter);
    if all.len() > 0 {
        let front = all.drop_last();
        let kept = all.filter(keeps);
        if k < front.filter(keeps).len() {
            lemma_filtered_is_member(front, keeps, k);
            assert(kept[k] == front.filter(keeps)[k]);
            let i = choose|i: int| 0 <= i < front.len() && front[i] == kept[k];
            assert(all[i] == kept[k]);
        } else {
            assert(all[all.len() - 1] == kept[k]);
        }
    }
}

/// The tasks of lists, one series after the other, are the tasks of both.
pub proof fn law_tasks_go_list_by_list(a: Seq<ListView>, b: Seq<ListView>)
    ensures
        tasks_of_lists(a + b) == tasks_of_lists(a) + tasks_of_lists(b),
    decreases b.len(),
{
    if b.len() == 0 {
        assert(a + b =~= a);
        assert(tasks_of_lists(a) + tasks_of_lists(b) =~= tasks_of_lists(a));
    } else {
        law_tasks_go_list_by_list(a, b.drop_last());
        assert((a + b).drop_last() =~= a + b.drop_last());
        assert((a + b).last() == b.last());
        assert(tasks_of_lists(a + b) =~= tasks_of_lists(a) + tasks_of_lists(b));
    }
}

/// Reading goes on from what was read before.
pub proof fn law_reading_goes_on(
    c: ContextView,
    a: Seq<EventView>,
    b: Seq<EventView>,
    style: TextStyle,
)
    ensures
        after_events(c, a + b, style) == after_events(after_events(c, a, style), b, style),
    decreases b.len(),
{
    if b.len() == 0 {
        assert(a + b =~= a);
    } else {
        law_reading_goes_on(c, a, b.drop_last(), style);
        assert((a + b).drop_last() =~= a + b.drop_last());
        assert((a + b).last() == b.last());
    }
}

proof fn lemma_one_event(c: ContextView, event: EventView, style: TextStyle)
    ensures
        after_events(c, seq![event], style) == after_event(c, event, style),
{
    let one = seq![event];
    assert(one.drop_last() =~= Seq::empty());
    assert(after_events(c, one.drop_last(), style) == c);
}

/// An event that covers no bytes.
pub open spec fn event(kind: KindView) -> EventView {
    EventView { kind, start: 0, end: 0 }
}

/// The events of an item: its box where it is a task, its text, the lists nested
/// under it.
pub open spec fn events_of_item(item: ItemView) -> Seq<EventView>
    decreases item,
{
    let mark = match item.task_status {
        Some(TaskStatus::Complete) => seq![event(KindView::TaskMarker(true))],
        Some(TaskStatus::Incomplete) => seq![event(KindView::TaskMarker(false))],
        None => Seq::empty(),
    };
    seq![event(KindView::StartItem)] + mark + seq![event(KindView::Text(item.text))]
        + events_of_lists(item.children) + seq![event(KindView::EndItem)]
}

/// The events of items, one after the other.
pub open spec fn events_of_items(items: Seq<ItemView>) -> Seq<EventView>
    decreases items,
{
    if items.len() == 0 {
        Seq::empty()
    } else {
        events_of_items(items.drop_last()) + events_of_item(items.last())
    }
}

/// The events of lists, one after the other. A numbered list starts at some
/// number.
pub open spec fn events_of_lists(lists: Seq<ListView>) -> Seq<EventView>
    decreases lists,
{
    if lists.len() == 0 {
        Seq::empty()
    } else {
        let list = lists.last();
        let first = if list.is_ordered {
            Some(1u64)
        } else {
            None
        };
        events_of_lists(lists.drop_last()) + (seq![event(KindView::StartList(first))]
            + events_of_items(list.items) + seq![event(KindView::EndList)])
    }
}

/// Neither frontmatter nor a link is open.
pub open spec fn is_in_text(c: ContextView) -> bool {
    !c.in_metadata && c.link is None
}

/// The context with `items` added to the list that is open.
spec fn with_items(c: ContextView, items: Seq<ItemView>) -> ContextView {
    let list = c.open_lists.last();
    ContextView {
        open_lists: c.open_lists.drop_last().push(
            ListView { items: list.items + items, ..list },
        ),
        ..c
    }
}

/// The context with `lists` added: to the item that is open, or else to what is
/// complete.
spec fn with_lists(c: ContextView, lists: Seq<ListView>) -> ContextView {
    if c.open_items.len() == 0 {
        ContextView { done: OutlineView { lists: c.done.lists + lists, ..c.done }, ..c }
    } else {
        let item = c.open_items.last();
        ContextView {
            open_items: c.open_items.drop_last().push(
                ItemView { children: item.children + lists, ..item },
            ),
            ..c
        }
    }
}

proof fn lemma_item_read(c: ContextView, item: ItemView)
    requires
        is_in_text(c),
        c.open_lists.len() > 0,
    ensures
        after_events(c, events_of_item(item), TextStyle::Verbatim) == with_items(c, seq![item]),
    decreases item,
{
    let style = TextStyle::Verbatim;
    let start = seq![event(KindView::StartItem)];
    let mark = match item.task_status {
        Some(TaskStatus::Complete) => seq![event(KindView::TaskMarker(true))],
        Some(TaskStatus::Incomplete) => seq![event(KindView::TaskMarker(false))],
        None => Seq::empty(),
    };
    let text = seq![event(KindView::Text(item.text))];
    let below = events_of_lists(item.children);
    let end = seq![event(KindView::EndItem)];
    let blank = ItemView { text: Seq::empty(), task_status: None, children: Seq::empty() };
    let c1 = ContextView { open_items: c.open_items.push(blank), ..c };
    lemma_one_event(c, start[0], style);
    assert(after_events(c, start, style) == c1);
    let marked = ItemView { task_status: item.task_status, ..blank };
    let c2 = ContextView { open_items: c.open_items.push(marked), ..c };
    law_reading_goes_on(c, start, mark, style);
    if mark.len() > 0 {
        assert(mark =~= seq![mark[0]]);
        lemma_one_event(c1, mark[0], style);
        assert(c1.open_items.drop_last() =~= c.open_items);
    }
    assert(after_events(c, start + mark, style) == c2);
    let worded = ItemView { text: item.text, ..marked };
    let c3 = ContextView { open_items: c.open_items.push(worded), ..c };
    law_reading_goes_on(c, start + mark, text, style);
    lemma_one_event(c2, text[0], style);
    assert(c2.open_items.drop_last() =~= c.open_items);
    assert(Seq::<char>::empty() + item.text =~= item.text);
    assert(after_events(c, start + mark + text, style) == c3);
    law_reading_goes_on(c, start + mark + text, below, style);
    lemma_lists_read(c3, item.children);
    assert(c3.open_items.drop_last() =~= c.open_items);
    assert(Seq::<ListView>::empty() + item.children =~= item.children);
    let c4 = ContextView { open_items: c.open_items.push(item), ..c };
    assert(with_lists(c3, item.children) == c4);
    law_reading_goes_on(c, start + mark + text + below, end, style);
    lemma_one_event(c4, end[0], style);
    assert(c4.open_items.drop_last() =~= c.open_items);
    assert(c.open_lists.last().items + seq![item] =~= c.open_lists.last().items.push(item));
}

proof fn lemma_items_read(c: ContextView, items: Seq<ItemView>)
    requires
        is_in_text(c),
        c.open_lists.len() > 0,
    ensures
        after_events(c, events_of_items(items), TextStyle::Verbatim) == with_items(c, items),
    decreases items,
{
    let list = c.open_lists.last();
    if items.len() == 0 {
        assert(list.items + items =~= list.items);
        assert(c.open_lists.drop_last().push(list) =~= c.open_lists);
    } else {
        let front = items.drop_last();
        let c1 = with_items(c, front);
        lemma_items_read(c, front);
        law_reading_goes_on(
            c,
            events_of_items(front),
            events_of_item(items.last()),
            TextStyle::Verbatim,
        );
        lemma_item_read(c1, items.last());
        assert(c1.open_lists.drop_last() =~= c.open_lists.drop_last());
        assert(list.items + front + seq![items.last()] =~= list.items + items);
    }
}

proof fn lemma_lists_read(c: ContextView, lists: Seq<ListView>)
    requires
        is_in_text(c),
    ensures
        after_events(c, events_of_lists(lists), TextStyle::Verbatim) == with_lists(c, lists),
    decreases lists,
{
    let style = TextStyle::Verbatim;
    if lists.len() == 0 {
        if c.open_items.len() == 0 {
            assert(c.done.lists + lists =~= c.done.lists);
        } else {
            let item = c.open_items.last();
            assert(item.children + lists =~= item.children);
            assert(c.open_items.drop_last().push(item) =~= c.open_items);
        }
    } else {
        let front = lists.drop_last();
        let list = lists.last();
        let first = if list.is_ordered {
            Some(1u64)
        } else {
            None
        };
        let start = seq![event(KindView::StartList(first))];
        let within = events_of_items(list.items);
        let end = seq![event(KindView::EndList)];
        lemma_lists_read(c, front);
        let c1 = with_lists(c, front);
        law_reading_goes_on(c, events_of_lists(front), start + within + end, style);
        let none = ListView { is_ordered: list.is_ordered, items: Seq::empty() };
        let c2 = ContextView { open_lists: c1.open_lists.push(none), ..c1 };
        lemma_one_event(c1, start[0], style);
        assert(after_events(c1, start, style) == c2);
        law_reading_goes_on(c1, start, within, style);
        lemma_items_read(c2, list.items);
        assert(c2.open_lists.drop_last() =~= c1.open_lists);
        assert(Seq::<ItemView>::empty() + list.items =~= list.items);
        let c3 = ContextView { open_lists: c1.open_lists.push(list), ..c1 };
        assert(with_items(c2, list.items) == c3);
        law_reading_goes_on(c1, start + within, end, style);
        lemma_one_event(c3, end[0], style);
        assert(c3.open_lists.drop_last() =~= c1.open_lists);
        if c.open_items.len() == 0 {
            assert((c.done.lists + front).push(list) =~= c.done.lists + lists);
        } else {
            let item = c.open_items.last();
            assert((item.children + front).push(list) =~= item.children + lists);
            assert(c1.open_items.drop_last() =~= c.open_items.drop_last());
        }
    }
}

/// Lists are read as they are written: with their items in order, each with its
/// text, its box and all that is nested under it, numbered or not. Nothing else
/// comes of them.
pub proof fn law_lists_are_read_as_written(lists: Seq<ListView>, path: Seq<char>)
    ensures
        outline_of(events_of_lists(lists), TextStyle::Verbatim) == (OutlineView {
            frontmatter: None,
            lists,
            outlinks: Seq::empty(),
            code_regions: Seq::empty(),
        }),
        note_of_outline(path, outline_of(events_of_lists(lists), TextStyle::Verbatim)).lists
            == lists,
{
    lemma_lists_read(empty_context(), lists);
    assert(Seq::<ListView>::empty() + lists =~= lists);
}

/// The tasks of a note are those of its lists, as they were written.
pub proof fn law_written_tasks_are_found(lists: Seq<ListView>, path: Seq<char>, item: ItemView)
    ensures
        tasks_of_lists(
            note_of_outline(path, outline_of(events_of_lists(lists), TextStyle::Verbatim)).lists,
        ).contains(item) <==> item.task_status is Some && stands_in(lists, item),
{
    law_lists_are_read_as_written(lists, path);
    law_tasks_are_found_at_any_depth(lists, item);
}

/// A link is recorded when it ends, wherever it stands: its target, its text, and
/// how it was written. The links before it stay.
pub proof fn law_links_are_recorded(
    c: ContextView,
    wiki: bool,
    target: Seq<char>,
    text: Seq<char>,
    style: TextStyle,
)
    requires
        !c.in_metadata,
    ensures
        ({
            let events = seq![
                event(KindView::StartLink(wiki, target)),
                event(KindView::Text(text)),
                event(KindView::EndLink),
            ];
            let after = after_events(c, events, style).done;
            let shown = if style == TextStyle::Verbatim {
                text
            } else {
                trimmed(text)
            };
            &&& after.outlinks == c.done.outlinks.push(
                OutlinkView {
                    target,
                    text: shown,
                    kind: if wiki {
                        LinkType::Wikilink
                    } else {
                        LinkType::Markdown
                    },
                },
            )
            &&& after.lists == c.done.lists
            &&& after.code_regions == c.done.code_regions
            &&& after.frontmatter == c.done.frontmatter
        }),
{
    let events = seq![
        event(KindView::StartLink(wiki, target)),
        event(KindView::Text(text)),
        event(KindView::EndLink),
    ];
    lemma_three_events(c, events, style);
    assert(Seq::<char>::empty() + text =~= text);
}

proof fn lemma_three_events(c: ContextView, events: Seq<EventView>, style: TextStyle)
    requires
        events.len() == 3,
    ensures
        after_events(c, events, style) == after_event(
            after_event(after_event(c, events[0], style), events[1], style),
            events[2],
            style,
        ),
{
    reveal_with_fuel(after_events, 4);
    let two = events.drop_last();
    let one = two.drop_last();
    assert(one.drop_last().len() == 0);
}

/// Frontmatter is recorded as it is written, and its text is no part of a list
/// or link.
pub proof fn law_frontmatter_is_recorded(c: ContextView, text: Seq<char>, style: TextStyle)
    ensures
        ({
            let events = seq![
                event(KindView::StartMetadata),
                event(KindView::Text(text)),
                event(KindView::EndMetadata),
            ];
            let after = after_events(c, events, style);
            &&& after.done.frontmatter == Some(text)
            &&& after.done.outlinks == c.done.outlinks
            &&& after.done.lists == c.done.lists
            &&& after.done.code_regions == c.done.code_regions
            &&& after.open_items == c.open_items
            &&& after.open_lists == c.open_lists
            &&& after.link == c.link
            &&& !after.in_metadata
        }),
{
    let events = seq![
        event(KindView::StartMetadata),
        event(KindView::Text(text)),
        event(KindView::EndMetadata),
    ];
    lemma_three_events(c, events, style);
    assert(Seq::<char>::empty() + text =~= text);
}

/// Code is recorded by the bytes it covers: a block from its beginning to its
/// end, code inside a line as it stands.
pub proof fn law_code_is_recorded(
    c: ContextView,
    text: Seq<char>,
    start: EventView,
    end: EventView,
    inline: EventView,
    style: TextStyle,
)
    requires
        start.kind is StartCodeBlock,
        end.kind is EndCodeBlock,
        inline.kind is Code,
    ensures
        after_events(c, seq![start, event(KindView::Text(text)), end], style).done.code_regions
            == c.done.code_regions.push(CodeRegion { start: start.start, end: end.end }),
        after_events(c, seq![inline], style).done.code_regions == c.done.code_regions.push(
            CodeRegion { start: inline.start, end: inline.end },
        ),
        after_events(c, seq![inline], style).done.outlinks == c.done.outlinks,
        after_events(c, seq![inline], style).done.lists == c.done.lists,
{
    lemma_three_events(c, seq![start, event(KindView::Text(text)), end], style);
    lemma_one_event(c, inline, style);
}

/// A note keeps what was read: its path, lists, links and code, and the fields of
/// its frontmatter. Inline fields and tags are added apart.
pub proof fn law_notes_keep_their_outline(path: Seq<char>, outline: OutlineView)
    ensures
        note_of_outline(path, outline).path_text == path,
        note_of_outline(path, outline).path == path_parts(path),
        note_of_outline(path, outline).lists == outline.lists,
        note_of_outline(path, outline).outlinks == outline.outlinks,
        note_of_outline(path, outline).code_regions == outline.code_regions,
        outline.frontmatter is None ==> note_of_outline(path, outline).frontmatter is None,
        outline.frontmatter matches Some(raw) ==> note_of_outline(path, outline).frontmatter == Some(
            fields_of_frontmatter(raw),
        ),
        note_of_outline(path, outline).inline_fields.len() == 0,
        note_of_outline(path, outline).tags.len() == 0,
{
}

/// Texts are kept as written, or without the whitespace around them.
pub proof fn law_styles(text: Seq<char>)
    ensures
        styled(text, TextStyle::Verbatim) == text,
        styled(text, TextStyle::Compact) == trimmed(text),
{
}

/// A line that ends inside of an item goes on in the text of the item: behind a
/// line break where texts are kept as written, else behind a space. Inside of
/// frontmatter the break is kept.
pub proof fn law_lines_go_on_in_the_item(c: ContextView, hard: bool, style: TextStyle)
    requires
        style == TextStyle::Verbatim || !c.in_metadata,
    ensures
        ({
            let end_of_line = event(
                if hard {
                    KindView::HardBreak
                } else {
                    KindView::SoftBreak
                },
            );
            let after = after_events(c, seq![end_of_line], style);
            &&& after.done == c.done
            &&& after.open_lists == c.open_lists
            &&& after.link == c.link
            &&& c.in_metadata ==> after.metadata == c.metadata + seq!['\n'] && after.open_items
                == c.open_items
            &&& !c.in_metadata ==> after.metadata == c.metadata
            &&& !c.in_metadata && c.open_items.len() > 0 ==> {
                &&& after.open_items.len() == c.open_items.len()
                &&& after.open_items.drop_last() == c.open_items.drop_last()
                &&& after.open_items.last().text == c.open_items.last().text + seq![
                    if style == TextStyle::Verbatim {
                        '\n'
                    } else {
                        ' '
                    },
                ]
                &&& after.open_items.last().task_status == c.open_items.last().task_status
                &&& after.open_items.last().children == c.open_items.last().children
            }
        }),
{
    let end_of_line = event(
        if hard {
            KindView::HardBreak
        } else {
            KindView::SoftBreak
        },
    );
    lemma_one_event(c, end_of_line, style);
    let after = after_events(c, seq![end_of_line], style);
    if !c.in_metadata && c.open_items.len() > 0 {
        assert(after.open_items.drop_last() =~= c.open_items.drop_last());
    }
}

/// The text of a link inside of an item is part of the text of the item where
/// texts are kept as written, and of the link alone where they are not.
pub proof fn law_text_of_links_in_items(c: ContextView, text: Seq<char>, style: TextStyle)
    requires
        !c.in_metadata,
        c.link is Some,
        c.open_items.len() > 0,
    ensures
        ({
            let after = after_events(c, seq![event(KindView::Text(text))], style);
            &&& after.link == Some(
                OutlinkView {
                    target: c.link.unwrap().target,
                    text: c.link.unwrap().text + text,
                    kind: c.link.unwrap().kind,
                },
            )
            &&& style == TextStyle::Compact ==> after.open_items == c.open_items
            &&& style == TextStyle::Verbatim ==> after.open_items.last().text
                == c.open_items.last().text + text
        }),
{
    lemma_one_event(c, event(KindView::Text(text)), style);
}

/// An item that ends is added to its list, with its text as written or without the
/// whitespace around it, its box and what is nested under it.
pub proof fn law_items_are_added_to_their_list(c: ContextView, style: TextStyle)
    requires
        c.open_items.len() > 0,
        c.open_lists.len() > 0,
    ensures
        ({
            let after = after_events(c, seq![event(KindView::EndItem)], style);
            let item = c.open_items.last();
            let list = c.open_lists.last();
            &&& after.done == c.done
            &&& after.open_items == c.open_items.drop_last()
            &&& after.open_lists == c.open_lists.drop_last().push(
                ListView {
                    is_ordered: list.is_ordered,
                    items: list.items.push(
                        ItemView {
                            text: if style == TextStyle::Verbatim {
                                item.text
                            } else {
                                trimmed(item.text)
                            },
                            task_status: item.task_status,
                            children: item.children,
                        },
                    ),
                },
            )
        }),
{
    lemma_one_event(c, event(KindView::EndItem), style);
}

/// A list is numbered exactly where it starts at a number, whichever it is.
pub proof fn law_numbered_lists_start_at_any_number(
    c: ContextView,
    first: Option<u64>,
    style: TextStyle,
)
    ensures
        after_events(c, seq![event(KindView::StartList(first))], style) == (ContextView {
            open_lists: c.open_lists.push(
                ListView { is_ordered: first is Some, items: Seq::empty() },
            ),
            ..c
        }),
{
    lemma_one_event(c, event(KindView::StartList(first)), style);
}

} // verus!
