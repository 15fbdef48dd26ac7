//! Markdown structure extracted from notes.

use vstd::prelude::*;
use vstd::string::*;

use crate::text::{begins_with, chars_of, same_text, starts_with, text_between, trim, trimmed};

verus! {

/// How a link was written.
#[derive(Copy, Clone, Debug, PartialEq, Eq, Structural)]
pub enum LinkType {
    /// A standard Markdown link.
    Markdown,
    /// A `[[wikilink]]`.
    Wikilink,
}

/// Contents of an [`Outlink`].
pub struct OutlinkView {
    /// Target URL, relative file path, or wikilink page.
    pub target: Seq<char>,
    /// Display text or alias.
    pub text: Seq<char>,
    /// How the link was written.
    pub kind: LinkType,
}

/// An outgoing link of a note.
#[derive(Debug)]
pub struct Outlink {
    target: String,
    text: String,
    kind: LinkType,
}

impl View for Outlink {
    type V = OutlinkView;

    closed spec fn view(&self) -> OutlinkView {
        OutlinkView { target: self.target@, text: self.text@, kind: self.kind }
    }
}

impl Outlink {
    /// Creates a link.
    pub fn new(target: &str, text: &str, kind: LinkType) -> (link: Self)
        ensures
            link@ == (OutlinkView { target: target@, text: text@, kind }),
    {
        Outlink { target: target.to_owned(), text: text.to_owned(), kind }
    }

    /// Target URL, relative file path, or wikilink page.
    pub fn target(&self) -> (target: &str)
        ensures
            target@ == self@.target,
    {
        self.target.as_str()
    }

    /// Display text or alias.
    pub fn text(&self) -> (text: &str)
        ensures
            text@ == self@.text,
    {
        self.text.as_str()
    }

    /// How the link was written.
    pub fn kind(&self) -> (kind: LinkType)
        ensures
            kind == self@.kind,
    {
        self.kind
    }

    /// Whether this is a wikilink.
    pub fn is_wikilink(&self) -> (wikilink: bool)
        ensures
            wikilink == (self@.kind == LinkType::Wikilink),
    {
        matches!(self.kind, LinkType::Wikilink)
    }

    /// Whether this is a standard Markdown link.
    pub fn is_markdown(&self) -> (markdown: bool)
        ensures
            markdown == (self@.kind == LinkType::Markdown),
    {
        matches!(self.kind, LinkType::Markdown)
    }

    /// Whether both links have the same parts.
    pub fn same(&self, other: &Self) -> (same: bool)
        ensures
            same == (self@ == other@),
    {
        same_text(self.target.as_str(), other.target.as_str()) && same_text(
            self.text.as_str(),
            other.text.as_str(),
        ) && self.kind == other.kind
    }

    /// The link that is all of `text`: `[[target]]` or `[[target|text]]`.
    pub fn from_wikilink(text: &str) -> (link: Option<Self>)
        ensures
            match (link, wikilink_of(text@)) {
                (Some(a), Some(b)) => a@ == b,
                (None, None) => true,
                _ => false,
            },
    {
        let inner = match bracketed_chars(text) {
            Some(inner) => inner,
            None => return None,
        };
        let n: usize = inner.len();
        let mut bar: usize = 0;
        while bar < n && inner[bar] != '|'
            invariant
                bar <= n,
                n == inner@.len(),
                bar_position(inner@, 0) == bar_position(inner@, bar as int),
            decreases n - bar,
        {
            bar = bar + 1;
        }
        let head = text_between(inner.as_slice(), 0, bar);
        assert(head@ =~= inner@.take(bar as int));
        let target = trim(head.as_str());
        if target.as_str().is_empty() {
            return None;
        }
        if bar < n {
            let tail = text_between(inner.as_slice(), bar + 1, n);
            assert(tail@ =~= inner@.skip(bar + 1));
            Some(
                Outlink { target, text: trim(tail.as_str()), kind: LinkType::Wikilink },
            )
        } else {
            let text = target.clone();
            Some(Outlink { target, text, kind: LinkType::Wikilink })
        }
    }

    /// A link with the same parts.
    pub fn copy(&self) -> (link: Self)
        ensures
            link@ == self@,
    {
        Outlink { target: self.target.clone(), text: self.text.clone(), kind: self.kind }
    }
}

/// The first position from `from` on where `s` holds a `|`; its length without
/// one.
pub open spec fn bar_position(s: Seq<char>, from: int) -> int
    decreases s.len() - from,
{
    if from >= s.len() || s[from] == '|' {
        from
    } else {
        bar_position(s, from + 1)
    }
}

/// What stands inside the brackets of `[[...]]`.
pub open spec fn bracketed(s: Seq<char>) -> Option<Seq<char>> {
    let inner = s.subrange(2, s.len() - 2);
    if s.len() > 4 && s[0] == '[' && s[1] == '[' && s[s.len() - 2] == ']' && s[s.len() - 1] == ']'
        && !inner.contains('[') && !inner.contains(']') {
        Some(inner)
    } else {
        None
    }
}

/// The link that is all of `s`: `[[target]]` or `[[target|text]]`.
pub open spec fn wikilink_of(s: Seq<char>) -> Option<OutlinkView> {
    match bracketed(s) {
        None => None,
        Some(inner) => {
            let bar = bar_position(inner, 0);
            let target = trimmed(inner.take(bar));
            if target.len() == 0 {
                None
            } else if bar < inner.len() {
                Some(
                    OutlinkView {
                        target,
                        text: trimmed(inner.skip(bar + 1)),
                        kind: LinkType::Wikilink,
                    },
                )
            } else {
                Some(OutlinkView { target, text: target, kind: LinkType::Wikilink })
            }
        },
    }
}

fn bracketed_chars(text: &str) -> (inner: Option<Vec<char>>)
    ensures
        match (inner, bracketed(text@)) {
            (Some(a), Some(b)) => a@ == b,
            (None, None) => true,
            _ => false,
        },
{
    let chars = chars_of(text);
    let n: usize = chars.len();
    if n <= 4 || chars[0] != '[' || chars[1] != '[' || chars[n - 2] != ']' || chars[n - 1] != ']' {
        return None;
    }
    let ghost all = text@.subrange(2, text@.len() - 2);
    let mut inner: Vec<char> = Vec::new();
    let mut i: usize = 2;
    while i < n - 2
        invariant
            2 <= i <= n - 2,
            n == chars@.len(),
            chars@ == text@,
            all == text@.subrange(2, text@.len() - 2),
            inner@ == text@.subrange(2, i as int),
            forall|k: int|
                0 <= k < inner@.len() ==> (#[trigger] inner@[k]) != '[' && inner@[k] != ']',
        decreases n - i,
    {
        let c: char = chars[i];
        if c == '[' || c == ']' {
            assert(all[i - 2] == c);
            return None;
        }
        inner.push(c);
        i = i + 1;
        assert(inner@ =~= text@.subrange(2, i as int));
    }
    Some(inner)
}


/// Completion state of a task.
#[derive(Copy, Clone, Debug, PartialEq, Eq, Structural)]
pub enum TaskStatus {
    /// `- [ ]`
    Incomplete,
    /// `- [x]`
    Complete,
}

/// Contents of a [`ListItem`].
pub struct ItemView {
    /// Plain text of the item.
    pub text: Seq<char>,
    /// Completion state, for a task.
    pub task_status: Option<TaskStatus>,
    /// Lists nested under the item.
    pub children: Seq<ListView>,
}

/// Contents of a [`List`].
pub struct ListView {
    /// The list is numbered.
    pub is_ordered: bool,
    /// The items in order.
    pub items: Seq<ItemView>,
}

/// One item of a list.
#[derive(Debug)]
pub struct ListItem {
    /// Plain text of the item.
    pub text: String,
    /// Completion state, for a task.
    pub task_status: Option<TaskStatus>,
    /// Lists nested under the item.
    pub children: Vec<List>,
}

/// A list of a note.
#[derive(Debug)]
pub struct List {
    /// The list is numbered.
    pub is_ordered: bool,
    /// The items in order.
    pub items: Vec<ListItem>,
}

/// The contents of each list.
pub open spec fn list_views(lists: Seq<List>) -> Seq<ListView>
    decreases lists,
{
    if lists.len() == 0 {
        Seq::empty()
    } else {
        list_views(lists.drop_last()).push(lists.last().contents())
    }
}

/// The contents of each item.
pub open spec fn item_views(items: Seq<ListItem>) -> Seq<ItemView>
    decreases items,
{
    if items.len() == 0 {
        Seq::empty()
    } else {
        item_views(items.drop_last()).push(items.last().contents())
    }
}

impl ListItem {
    /// The contents of this item.
    pub open spec fn contents(self) -> ItemView
        decreases self,
    {
        ItemView {
            text: self.text@,
            task_status: self.task_status,
            children: list_views(self.children@),
        }
    }

    /// An item without nested lists.
    pub fn new(text: &str, task_status: Option<TaskStatus>) -> (item: Self)
        ensures
            item.contents() == (ItemView { text: text@, task_status, children: Seq::empty() }),
    {
        ListItem { text: text.to_owned(), task_status, children: Vec::new() }
    }

    /// An item with nested lists.
    pub fn with_children(
        text: &str,
        task_status: Option<TaskStatus>,
        children: Vec<List>,
    ) -> (item: Self)
        ensures
            item.contents() == (ItemView {
                text: text@,
                task_status,
                children: list_views(children@),
            }),
    {
        ListItem { text: text.to_owned(), task_status, children }
    }

    /// Plain text of the item.
    pub fn text(&self) -> (text: &str)
        ensures
            text@ == self.contents().text,
    {
        self.text.as_str()
    }

    /// Completion state, for a task.
    pub fn task_status(&self) -> (status: Option<TaskStatus>)
        ensures
            status == self.contents().task_status,
    {
        self.task_status
    }

    /// Whether this item is a task.
    pub fn is_task(&self) -> (task: bool)
        ensures
            task == (self.contents().task_status is Some),
    {
        self.task_status.is_some()
    }

    /// Whether this item is a completed task.
    pub fn is_completed(&self) -> (completed: bool)
        ensures
            completed == (self.contents().task_status == Some(TaskStatus::Complete)),
    {
        matches!(self.task_status, Some(TaskStatus::Complete))
    }

    /// Lists nested under this item.
    pub fn children(&self) -> (children: &Vec<List>)
        ensures
            list_views(children@) == self.contents().children,
    {
        &self.children
    }
}

impl List {
    /// The contents of this list.
    pub open spec fn contents(self) -> ListView
        decreases self,
    {
        ListView { is_ordered: self.is_ordered, items: item_views(self.items@) }
    }

    /// Creates a list.
    pub fn new(is_ordered: bool, items: Vec<ListItem>) -> (list: Self)
        ensures
            list.contents() == (ListView { is_ordered, items: item_views(items@) }),
    {
        List { is_ordered, items }
    }

    /// Whether the list is numbered.
    pub fn is_ordered(&self) -> (ordered: bool)
        ensures
            ordered == self.contents().is_ordered,
    {
        self.is_ordered
    }

    /// The items in order.
    pub fn items(&self) -> (items: &Vec<ListItem>)
        ensures
            item_views(items@) == self.contents().items,
    {
        &self.items
    }
}

/// The contents of lists, one by one.
pub proof fn lemma_list_views(lists: Seq<List>)
    ensures
        list_views(lists).len() == lists.len(),
        forall|i: int|
            0 <= i < lists.len() ==> (#[trigger] list_views(lists)[i]) == lists[i].contents(),
    decreases lists.len(),
{
    if lists.len() > 0 {
        lemma_list_views(lists.drop_last());
        assert forall|i: int| 0 <= i < lists.len() implies (#[trigger] list_views(lists)[i])
            == lists[i].contents() by {
            if i < lists.len() - 1 {
                assert(list_views(lists.drop_last())[i] == lists.drop_last()[i].contents());
            }
        }
    }
}

/// The contents of items, one by one.
pub proof fn lemma_item_views(items: Seq<ListItem>)
    ensures
        item_views(items).len() == items.len(),
        forall|i: int|
            0 <= i < items.len() ==> (#[trigger] item_views(items)[i]) == items[i].contents(),
    decreases items.len(),
{
    if items.len() > 0 {
        lemma_item_views(items.drop_last());
        assert forall|i: int| 0 <= i < items.len() implies (#[trigger] item_views(items)[i])
            == items[i].contents() by {
            if i < items.len() - 1 {
                assert(item_views(items.drop_last())[i] == items.drop_last()[i].contents());
            }
        }
    }
}

/// The tasks of lists, each list in turn.
pub open spec fn tasks_of_lists(lists: Seq<ListView>) -> Seq<ItemView>
    decreases lists,
{
    if lists.len() == 0 {
        Seq::empty()
    } else {
        tasks_of_lists(lists.drop_last()) + tasks_of_items(lists.last().items)
    }
}

/// The tasks among `items` and under them: each item before the lists nested
/// under it.
pub open spec fn tasks_of_items(items: Seq<ItemView>) -> Seq<ItemView>
    decreases items,
{
    if items.len() == 0 {
        Seq::empty()
    } else {
        let item = items.last();
        let own = if item.task_status is Some {
            seq![item]
        } else {
            Seq::empty()
        };
        tasks_of_items(items.drop_last()) + own + tasks_of_lists(item.children)
    }
}

/// The contents of each task found.
pub open spec fn task_views(tasks: Seq<&ListItem>) -> Seq<ItemView> {
    Seq::new(tasks.len(), |i: int| tasks[i].contents())
}

/// Appends the tasks of `list` and of the lists nested in it to `tasks`.
pub fn collect_tasks_recursive<'a>(list: &'a List, tasks: &mut Vec<&'a ListItem>)
    ensures
        task_views(final(tasks)@) == task_views(old(tasks)@) + tasks_of_items(
            list.contents().items,
        ),
    decreases list,
{
    let ghost before = task_views(tasks@);
    let items = &list.items;
    let ghost views = item_views(items@);
    proof {
        lemma_item_views(items@);
        assert(views.take(0) =~= Seq::empty());
        assert(before + tasks_of_items(views.take(0)) =~= before);
    }
    let mut i: usize = 0;
    while i < items.len()
        invariant
            i <= items@.len(),
            items == list.items,
            views == item_views(items@),
            views.len() == items@.len(),
            forall|k: int|
                0 <= k < items@.len() ==> (#[trigger] views[k]) == items@[k].contents(),
            task_views(tasks@) == before + tasks_of_items(views.take(i as int)),
        decreases items@.len() - i,
    {
        let item = &items[i];
        assert(decreases_to!(list => list.items));
        assert(decreases_to!(list.items => list.items@));
        assert(decreases_to!(list.items@ => list.items@[i as int]));
        let ghost view = views[i as int];
        assert(view == item.contents());
        let ghost own = if view.task_status is Some {
            seq![view]
        } else {
            Seq::empty()
        };
        let ghost upto = task_views(tasks@);
        if item.is_task() {
            tasks.push(item);
        }
        assert(task_views(tasks@) =~= upto + own);
        let children = &item.children;
        let ghost lists = list_views(children@);
        proof {
            lemma_list_views(children@);
            assert(lists.take(0) =~= Seq::empty());
            assert(upto + own + tasks_of_lists(lists.take(0)) =~= upto + own);
        }
        let mut j: usize = 0;
        while j < children.len()
            invariant
                i < items@.len(),
                items == list.items,
                item == items@[i as int],
                j <= children@.len(),
                children == item.children,
                lists == list_views(children@),
                lists.len() == children@.len(),
                decreases_to!(list => list.items@[i as int]),
                forall|k: int|
                    0 <= k < children@.len() ==> (#[trigger] lists[k]) == children@[k].contents(),
                task_views(tasks@) == upto + own + tasks_of_lists(lists.take(j as int)),
            decreases children@.len() - j,
        {
            assert(decreases_to!(item => item.children));
            assert(decreases_to!(item.children => item.children@));
            assert(decreases_to!(item.children@ => item.children@[j as int]));
            collect_tasks_recursive(&children[j], tasks);
            proof {
                let next = lists.take(j + 1);
                assert(next.drop_last() =~= lists.take(j as int));
                assert(next.last() == lists[j as int]);
                assert(task_views(tasks@) =~= upto + own + tasks_of_lists(next));
            }
            j = j + 1;
        }
        proof {
            assert(lists.take(j as int) =~= lists);
            let next = views.take(i + 1);
            assert(next.drop_last() =~= views.take(i as int));
            assert(next.last() == view);
            assert(task_views(tasks@) =~= before + tasks_of_items(next));
        }
        i = i + 1;
    }
    assert(views.take(i as int) =~= views);
}

/// A tag with its leading `#`.
#[derive(Debug)]
pub struct Tag {
    text: String,
}

/// `tag` is `parent`, or nested under it.
pub open spec fn is_nested_tag(tag: Seq<char>, parent: Seq<char>) -> bool {
    tag == parent || begins_with(tag, parent.push('/'))
}

impl View for Tag {
    type V = Seq<char>;

    closed spec fn view(&self) -> Seq<char> {
        self.text@
    }
}

impl Tag {
    /// A tag from its full text.
    pub fn new(text: &str) -> (tag: Self)
        ensures
            tag@ == text@,
    {
        Tag { text: text.to_owned() }
    }

    /// The full text, including the leading `#`.
    pub fn as_str(&self) -> (text: &str)
        ensures
            text@ == self@,
    {
        self.text.as_str()
    }

    /// Whether this tag is `parent`, or nested under it.
    pub fn is_nested_under(&self, parent: &str) -> (nested: bool)
        ensures
            nested == is_nested_tag(self@, parent@),
    {
        let mut prefix = parent.to_owned();
        prefix.push('/');
        same_text(self.text.as_str(), parent) || starts_with(self.text.as_str(), prefix.as_str())
    }
}

/// Source byte range of inline code or a code block.
#[derive(Copy, Clone, Debug, PartialEq, Eq, Structural)]
pub struct CodeRegion {
    /// First byte.
    pub start: usize,
    /// One past the last byte.
    pub end: usize,
}

impl CodeRegion {
    /// A region from source byte offsets.
    pub fn new(start: usize, end: usize) -> (region: Self)
        ensures
            region == (CodeRegion { start, end }),
    {
        CodeRegion { start, end }
    }

    /// The byte range in the source.
    pub fn range(&self) -> (range: core::ops::Range<usize>)
        ensures
            range.start == self.start,
            range.end == self.end,
    {
        self.start..self.end
    }
}

} // verus!
