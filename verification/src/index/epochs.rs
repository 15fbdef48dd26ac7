//! Which settings an index was built with.

use vstd::prelude::*;
use vstd::string::*;

use super::codec::{
    decode_marks, decode_text, encode_marks, encode_text, mark_views, marks_row, row_marks,
    row_text, text_row,
};
use super::error::StoreError;
use crate::names::{in_name_order, law_names_determine_order, sorted_names};
use crate::path::FilePath;
use crate::query::record::string_texts;
use crate::text::{
    lemma_text_lt_irreflexive, lemma_text_lt_total, lemma_text_lt_transitive, same_text,
    text_before, text_lt,
};

verus! {

/// A task marker and whether it means a completed task.
#[derive(Debug)]
pub struct StatusSetting {
    symbol: String,
    completed: bool,
}

/// Contents of a [`StatusSetting`].
pub struct StatusView {
    /// The marker between the brackets.
    pub symbol: Seq<char>,
    /// It means a completed task.
    pub completed: bool,
}

impl View for StatusSetting {
    type V = StatusView;

    closed spec fn view(&self) -> StatusView {
        StatusView { symbol: self.symbol@, completed: self.completed }
    }
}

impl StatusSetting {
    /// A marker and whether it means a completed task.
    pub fn new(symbol: &str, completed: bool) -> (status: Self)
        ensures
            status@ == (StatusView { symbol: symbol@, completed }),
    {
        StatusSetting { symbol: symbol.to_owned(), completed }
    }

    fn copy(&self) -> (status: Self)
        ensures
            status@ == self@,
    {
        StatusSetting { symbol: self.symbol.clone(), completed: self.completed }
    }

    fn same(&self, other: &Self) -> (same: bool)
        ensures
            same == (self@ == other@),
    {
        self.completed == other.completed && same_text(
            self.symbol.as_str(),
            other.symbol.as_str(),
        )
    }
}

/// The contents of each status.
pub open spec fn status_views(statuses: Seq<StatusSetting>) -> Seq<StatusView> {
    Seq::new(statuses.len(), |i: int| statuses[i]@)
}

/// Contents of a [`TaskConfig`].
pub struct TaskConfigView {
    /// The known markers.
    pub statuses: Seq<StatusView>,
    /// Tags that make an item a task.
    pub tag_filters: Seq<Seq<char>>,
}

/// How tasks are recognised.
#[derive(Debug)]
pub struct TaskConfig {
    statuses: Vec<StatusSetting>,
    tag_filters: Vec<String>,
}

impl View for TaskConfig {
    type V = TaskConfigView;

    closed spec fn view(&self) -> TaskConfigView {
        TaskConfigView {
            statuses: status_views(self.statuses@),
            tag_filters: string_texts(self.tag_filters@),
        }
    }
}

impl TaskConfig {
    /// These markers and tag filters.
    pub fn new(statuses: Vec<StatusSetting>, tag_filters: Vec<String>) -> (config: Self)
        ensures
            config@ == (TaskConfigView {
                statuses: status_views(statuses@),
                tag_filters: string_texts(tag_filters@),
            }),
    {
        TaskConfig { statuses, tag_filters }
    }
}

impl Default for TaskConfig {
    /// `[ ]` is open, `[x]` is completed, and every item with a marker is a task.
    fn default() -> (config: Self)
        ensures
            config@.statuses == seq![
                StatusView { symbol: " "@, completed: false },
                StatusView { symbol: "x"@, completed: true },
            ],
            config@.tag_filters == Seq::<Seq<char>>::empty(),
    {
        let mut statuses: Vec<StatusSetting> = Vec::new();
        statuses.push(StatusSetting::new(" ", false));
        statuses.push(StatusSetting::new("x", true));
        let config = TaskConfig { statuses, tag_filters: Vec::new() };
        proof {
            assert(config@.statuses =~= seq![
                StatusView { symbol: " "@, completed: false },
                StatusView { symbol: "x"@, completed: true },
            ]);
            assert(config@.tag_filters =~= Seq::empty());
        }
        config
    }
}

/// `statuses` with `status` behind all whose marker does not come after its own.
pub open spec fn with_status(statuses: Seq<StatusView>, status: StatusView) -> Seq<StatusView>
    decreases statuses.len(),
{
    if statuses.len() == 0 || text_lt(status.symbol, statuses[0].symbol) {
        seq![status] + statuses
    } else {
        seq![statuses[0]] + with_status(statuses.drop_first(), status)
    }
}

/// The statuses in the order of their markers.
pub open spec fn by_symbol(statuses: Seq<StatusView>) -> Seq<StatusView>
    decreases statuses.len(),
{
    if statuses.len() == 0 {
        Seq::empty()
    } else {
        with_status(by_symbol(statuses.drop_last()), statuses.last())
    }
}

proof fn lemma_with_status(statuses: Seq<StatusView>, status: StatusView, at: int)
    requires
        0 <= at <= statuses.len(),
        forall|i: int| 0 <= i < at ==> !text_lt(status.symbol, (#[trigger] statuses[i]).symbol),
        at < statuses.len() ==> text_lt(status.symbol, statuses[at].symbol),
    ensures
        with_status(statuses, status) == statuses.insert(at, status),
    decreases statuses.len(),
{
    if at == 0 {
        assert(statuses.insert(0, status) =~= seq![status] + statuses);
    } else {
        let rest = statuses.drop_first();
        assert forall|i: int| 0 <= i < at - 1 implies !text_lt(
            status.symbol,
            (#[trigger] rest[i]).symbol,
        ) by {
            assert(rest[i] == statuses[i + 1]);
        }
        if at < statuses.len() {
            assert(rest[at - 1] == statuses[at]);
        }
        lemma_with_status(rest, status, at - 1);
        assert(!text_lt(status.symbol, statuses[0].symbol));
        assert(statuses.insert(at, status) =~= seq![statuses[0]] + rest.insert(at - 1, status));
    }
}

fn statuses_sorted_by_symbol(statuses: &Vec<StatusSetting>) -> (sorted: Vec<StatusSetting>)
    ensures
        status_views(sorted@) == by_symbol(status_views(statuses@)),
{
    let ghost all = status_views(statuses@);
    let mut sorted: Vec<StatusSetting> = Vec::new();
    let mut i: usize = 0;
    proof {
        assert(all.take(0) =~= Seq::empty());
        assert(status_views(sorted@) =~= Seq::empty());
    }
    while i < statuses.len()
        invariant
            i <= statuses@.len(),
            all == status_views(statuses@),
            status_views(sorted@) == by_symbol(all.take(i as int)),
        decreases statuses@.len() - i,
    {
        let ghost before = status_views(sorted@);
        let status = statuses[i].copy();
        let ghost added = status@;
        let mut at: usize = 0;
        while at < sorted.len() && !text_before(
            status.symbol.as_str(),
            sorted[at].symbol.as_str(),
        )
            invariant
                at <= sorted@.len(),
                before == status_views(sorted@),
                added == status@,
                forall|k: int|
                    0 <= k < at ==> !text_lt(added.symbol, (#[trigger] before[k]).symbol),
            decreases sorted@.len() - at,
        {
            assert(before[at as int] == sorted@[at as int]@);
            at = at + 1;
        }
        proof {
            if at < sorted@.len() {
                assert(before[at as int] == sorted@[at as int]@);
            }
            lemma_with_status(before, added, at as int);
            let next = all.take(i + 1);
            assert(next.drop_last() =~= all.take(i as int));
            assert(next.last() == added);
        }
        sorted.insert(at, status);
        assert(status_views(sorted@) =~= before.insert(at as int, added));
        i = i + 1;
    }
    assert(all.take(i as int) =~= all);
    sorted
}

/// Each marker with its meaning.
pub open spec fn status_marks(statuses: Seq<StatusView>) -> Seq<(Seq<char>, bool)> {
    Seq::new(statuses.len(), |i: int| (statuses[i].symbol, statuses[i].completed))
}

fn to_marks(statuses: &Vec<StatusSetting>) -> (marks: Vec<(String, bool)>)
    ensures
        mark_views(marks@) == status_marks(status_views(statuses@)),
{
    let mut marks: Vec<(String, bool)> = Vec::new();
    let mut i: usize = 0;
    while i < statuses.len()
        invariant
            i <= statuses@.len(),
            marks@.len() == i,
            forall|k: int|
                0 <= k < i ==> (#[trigger] marks@[k]).0@ == statuses@[k]@.symbol && marks@[k].1
                    == statuses@[k]@.completed,
        decreases statuses@.len() - i,
    {
        marks.push((statuses[i].symbol.clone(), statuses[i].completed));
        i = i + 1;
    }
    assert(mark_views(marks@) =~= status_marks(status_views(statuses@)));
    marks
}

fn of_marks(marks: Vec<(String, bool)>) -> (statuses: Vec<StatusSetting>)
    ensures
        status_marks(status_views(statuses@)) == mark_views(marks@),
{
    let ghost all = marks@;
    let mut statuses: Vec<StatusSetting> = Vec::new();
    for mark in it: marks
        invariant
            it.seq() == all,
            statuses@.len() == it.index(),
            forall|k: int|
                0 <= k < it.index() ==> (#[trigger] statuses@[k])@.symbol == all[k].0@
                    && statuses@[k]@.completed == all[k].1,
    {
        statuses.push(StatusSetting { symbol: mark.0, completed: mark.1 });
    }
    assert(status_marks(status_views(statuses@)) =~= mark_views(all));
    statuses
}

/// Contents of a [`ParseEpoch`].
pub struct ParseEpochView {
    /// The known markers, in order.
    pub statuses: Seq<StatusView>,
    /// The tag filters, in order, each once.
    pub tag_filters: Seq<Seq<char>>,
}

/// The settings that notes were parsed with.
#[derive(Debug)]
pub struct ParseEpoch {
    statuses: Vec<StatusSetting>,
    tag_filters: Vec<String>,
}

impl View for ParseEpoch {
    type V = ParseEpochView;

    closed spec fn view(&self) -> ParseEpochView {
        ParseEpochView {
            statuses: status_views(self.statuses@),
            tag_filters: string_texts(self.tag_filters@),
        }
    }
}

/// `epoch` stands for the settings `config`.
pub open spec fn is_parse_epoch_of(epoch: ParseEpochView, config: TaskConfigView) -> bool {
    &&& epoch.statuses == by_symbol(config.statuses)
    &&& in_name_order(epoch.tag_filters)
    &&& forall|tag: Seq<char>| #[trigger]
        epoch.tag_filters.contains(tag) <==> config.tag_filters.contains(tag)
}

fn same_statuses(a: &Vec<StatusSetting>, b: &Vec<StatusSetting>) -> (same: bool)
    ensures
        same == (status_views(a@) == status_views(b@)),
{
    if a.len() != b.len() {
        assert(status_views(a@).len() != status_views(b@).len());
        return false;
    }
    let mut i: usize = 0;
    while i < a.len()
        invariant
            i <= a@.len(),
            a@.len() == b@.len(),
            forall|k: int| 0 <= k < i ==> (#[trigger] a@[k])@ == b@[k]@,
        decreases a@.len() - i,
    {
        if !a[i].same(&b[i]) {
            assert(status_views(a@)[i as int] != status_views(b@)[i as int]);
            return false;
        }
        i = i + 1;
    }
    assert(status_views(a@) =~= status_views(b@));
    true
}

fn same_names(a: &Vec<String>, b: &Vec<String>) -> (same: bool)
    ensures
        same == (string_texts(a@) == string_texts(b@)),
{
    if a.len() != b.len() {
        assert(string_texts(a@).len() != string_texts(b@).len());
        return false;
    }
    let mut i: usize = 0;
    while i < a.len()
        invariant
            i <= a@.len(),
            a@.len() == b@.len(),
            forall|k: int| 0 <= k < i ==> (#[trigger] a@[k])@ == b@[k]@,
        decreases a@.len() - i,
    {
        if !same_text(a[i].as_str(), b[i].as_str()) {
            assert(string_texts(a@)[i as int] != string_texts(b@)[i as int]);
            return false;
        }
        i = i + 1;
    }
    assert(string_texts(a@) =~= string_texts(b@));
    true
}

impl ParseEpoch {
    /// The settings of `tasks`, in an order that does not depend on how they
    /// were given.
    pub fn from_config(tasks: &TaskConfig) -> (epoch: Self)
        ensures
            is_parse_epoch_of(epoch@, tasks@),
    {
        ParseEpoch {
            statuses: statuses_sorted_by_symbol(&tasks.statuses),
            tag_filters: sorted_names(&tasks.tag_filters),
        }
    }

    /// No settings at all.
    pub fn empty() -> (epoch: Self)
        ensures
            epoch@.statuses.len() == 0,
            epoch@.tag_filters.len() == 0,
    {
        ParseEpoch { statuses: Vec::new(), tag_filters: Vec::new() }
    }

    /// The settings as stored: markers with their meaning, and tag filters.
    pub fn from_parts(statuses: Vec<StatusSetting>, tag_filters: Vec<String>) -> (epoch: Self)
        ensures
            epoch@ == (ParseEpochView {
                statuses: status_views(statuses@),
                tag_filters: string_texts(tag_filters@),
            }),
    {
        ParseEpoch { statuses, tag_filters }
    }

    /// The row that these settings are stored as.
    pub fn encode(&self) -> (row: Result<Vec<u8>, StoreError>)
        ensures
            match row {
                Ok(bytes) => marks_row(status_marks(self@.statuses), self@.tag_filters) == Ok::<
                    Seq<u8>,
                    Seq<char>,
                >(bytes@) && row_marks(bytes@, usize::BITS) == Ok::<
                    (Seq<(Seq<char>, bool)>, Seq<Seq<char>>),
                    Seq<char>,
                >((status_marks(self@.statuses), self@.tag_filters)),
                Err(StoreError::Serialize { path, detail }) => path.spec_text()
                    == "epochs/parse"@ && marks_row(status_marks(self@.statuses), self@.tag_filters) == Err::<
                    Seq<u8>,
                    Seq<char>,
                >(detail@),
                _ => false,
            },
    {
        match encode_marks(&to_marks(&self.statuses), &self.tag_filters) {
            Ok(bytes) => Ok(bytes),
            Err(detail) => Err(
                StoreError::Serialize { path: FilePath::new("epochs/parse"), detail },
            ),
        }
    }

    /// The settings that a row holds.
    pub fn decode(row: &[u8]) -> (epoch: Result<Self, StoreError>)
        ensures
            match epoch {
                Ok(found) => row_marks(row@, usize::BITS) == Ok::<
                    (Seq<(Seq<char>, bool)>, Seq<Seq<char>>),
                    Seq<char>,
                >((status_marks(found@.statuses), found@.tag_filters)),
                Err(StoreError::Deserialize { path, detail }) => path.spec_text()
                    == "epochs/parse"@ && row_marks(row@, usize::BITS) == Err::<
                    (Seq<(Seq<char>, bool)>, Seq<Seq<char>>),
                    Seq<char>,
                >(detail@),
                _ => false,
            },
    {
        match decode_marks(row) {
            Ok((marks, tag_filters)) => Ok(
                ParseEpoch { statuses: of_marks(marks), tag_filters },
            ),
            Err(detail) => Err(
                StoreError::Deserialize { path: FilePath::new("epochs/parse"), detail },
            ),
        }
    }

    /// Whether both stand for the same settings.
    pub fn same(&self, other: &Self) -> (same: bool)
        ensures
            same == (self@ == other@),
    {
        same_statuses(&self.statuses, &other.statuses) && same_names(
            &self.tag_filters,
            &other.tag_filters,
        )
    }
}

/// The name of the frontmatter field that gave the classes.
#[derive(Debug)]
pub struct ClassEpoch {
    field: String,
}

impl View for ClassEpoch {
    type V = Seq<char>;

    closed spec fn view(&self) -> Seq<char> {
        self.field@
    }
}

impl ClassEpoch {
    /// The classes came from `class_field`.
    pub fn from_class_field(class_field: &str) -> (epoch: Self)
        ensures
            epoch@ == class_field@,
    {
        ClassEpoch { field: class_field.to_owned() }
    }

    /// No field.
    pub fn empty() -> (epoch: Self)
        ensures
            epoch@ == Seq::<char>::empty(),
    {
        ClassEpoch { field: String::new() }
    }

    /// The name of the field.
    pub fn as_str(&self) -> (field: &str)
        ensures
            field@ == self@,
    {
        self.field.as_str()
    }

    /// The row that this is stored as.
    pub fn encode(&self) -> (row: Result<Vec<u8>, StoreError>)
        ensures
            match row {
                Ok(bytes) => text_row(self@) == Ok::<Seq<u8>, Seq<char>>(bytes@) && row_text(
                    bytes@,
                    usize::BITS,
                ) == Ok::<Seq<char>, Seq<char>>(self@),
                Err(StoreError::Serialize { path, detail }) => path.spec_text()
                    == "epochs/class"@ && text_row(self@) == Err::<Seq<u8>, Seq<char>>(detail@),
                _ => false,
            },
    {
        match encode_text(self.field.as_str()) {
            Ok(bytes) => Ok(bytes),
            Err(detail) => Err(
                StoreError::Serialize { path: FilePath::new("epochs/class"), detail },
            ),
        }
    }

    /// What a row holds.
    pub fn decode(row: &[u8]) -> (epoch: Result<Self, StoreError>)
        ensures
            match epoch {
                Ok(found) => row_text(row@, usize::BITS) == Ok::<Seq<char>, Seq<char>>(found@),
                Err(StoreError::Deserialize { path, detail }) => path.spec_text()
                    == "epochs/class"@ && row_text(row@, usize::BITS) == Err::<Seq<char>, Seq<char>>(detail@),
                _ => false,
            },
    {
        match decode_text(row) {
            Ok(field) => Ok(ClassEpoch { field }),
            Err(detail) => Err(
                StoreError::Deserialize { path: FilePath::new("epochs/class"), detail },
            ),
        }
    }
}

/// Contents of [`PersistedEpochs`].
pub struct EpochsView {
    /// The settings that notes were parsed with.
    pub parse: ParseEpochView,
    /// The field that gave the classes.
    pub class: Seq<char>,
}

/// The settings that an index was built with.
#[derive(Debug)]
pub struct PersistedEpochs {
    parse: ParseEpoch,
    class: ClassEpoch,
}

impl View for PersistedEpochs {
    type V = EpochsView;

    closed spec fn view(&self) -> EpochsView {
        EpochsView { parse: self.parse@, class: self.class@ }
    }
}

impl PersistedEpochs {
    /// The settings of now.
    pub fn current(tasks: &TaskConfig, class_field: &str) -> (epochs: Self)
        ensures
            is_parse_epoch_of(epochs@.parse, tasks@),
            epochs@.class == class_field@,
    {
        PersistedEpochs {
            parse: ParseEpoch::from_config(tasks),
            class: ClassEpoch::from_class_field(class_field),
        }
    }

    /// What stands for settings that are missing or unreadable.
    pub fn unknown() -> (epochs: Self)
        ensures
            epochs@.parse.statuses.len() == 0,
            epochs@.parse.tag_filters.len() == 0,
            epochs@.class.len() == 0,
    {
        PersistedEpochs { parse: ParseEpoch::empty(), class: ClassEpoch::empty() }
    }

    /// These settings.
    pub fn new(parse: ParseEpoch, class: ClassEpoch) -> (epochs: Self)
        ensures
            epochs@ == (EpochsView { parse: parse@, class: class@ }),
    {
        PersistedEpochs { parse, class }
    }

    /// The settings that notes were parsed with.
    pub fn parse(&self) -> (parse: &ParseEpoch)
        ensures
            parse@ == self@.parse,
    {
        &self.parse
    }

    /// The field that gave the classes.
    pub fn class(&self) -> (class: &ClassEpoch)
        ensures
            class@ == self@.class,
    {
        &self.class
    }

    /// Whether all settings are those of `current`.
    pub fn is_match(&self, current: &Self) -> (found: bool)
        ensures
            found == (self@ == current@),
    {
        self.is_parse_match(current) && self.is_class_match(current)
    }

    /// Whether notes would be parsed alike.
    pub fn is_parse_match(&self, current: &Self) -> (found: bool)
        ensures
            found == (self@.parse == current@.parse),
    {
        self.parse.same(&current.parse)
    }

    /// Whether classes come from the same field.
    pub fn is_class_match(&self, current: &Self) -> (found: bool)
        ensures
            found == (self@.class == current@.class),
    {
        same_text(self.class.field.as_str(), current.class.field.as_str())
    }
}

proof fn lemma_by_symbol_len(statuses: Seq<StatusView>)
    ensures
        by_symbol(statuses).len() == statuses.len(),
    decreases statuses.len(),
{
    if statuses.len() > 0 {
        lemma_by_symbol_len(statuses.drop_last());
        lemma_with_status_len(by_symbol(statuses.drop_last()), statuses.last());
    }
}

proof fn lemma_with_status_len(statuses: Seq<StatusView>, status: StatusView)
    ensures
        with_status(statuses, status).len() == statuses.len() + 1,
    decreases statuses.len(),
{
    if statuses.len() > 0 && !text_lt(status.symbol, statuses[0].symbol) {
        lemma_with_status_len(statuses.drop_first(), status);
    }
}

/// Unknown settings are no settings that have a task marker, so an index with
/// missing markers is always repaired.
pub proof fn law_unknown_settings_never_match(
    unknown: ParseEpochView,
    current: ParseEpochView,
    config: TaskConfigView,
)
    requires
        unknown.statuses.len() == 0,
        is_parse_epoch_of(current, config),
        config.statuses.len() > 0,
    ensures
        unknown != current,
{
    lemma_by_symbol_len(config.statuses);
}

/// The order of tag filters, and how often one is given, do not count.
pub proof fn law_filter_order_does_not_count(
    a: ParseEpochView,
    b: ParseEpochView,
    first: TaskConfigView,
    second: TaskConfigView,
)
    requires
        is_parse_epoch_of(a, first),
        is_parse_epoch_of(b, second),
        first.statuses == second.statuses,
        first.tag_filters.to_set() == second.tag_filters.to_set(),
    ensures
        a == b,
{
    assert forall|tag: Seq<char>| #[trigger]
        a.tag_filters.contains(tag) <==> b.tag_filters.contains(tag) by {
        assert(first.tag_filters.to_set().contains(tag) <==> second.tag_filters.to_set().contains(
            tag,
        ));
    }
    law_names_determine_order(a.tag_filters, b.tag_filters);
}

/// No two statuses have one marker.
pub open spec fn has_distinct_symbols(statuses: Seq<StatusView>) -> bool {
    forall|i: int, j: int|
        0 <= i < j < statuses.len() ==> (#[trigger] statuses[i]).symbol != (
        #[trigger] statuses[j]).symbol
}

/// Each marker comes before all that follow it.
spec fn in_symbol_order(statuses: Seq<StatusView>) -> bool {
    forall|i: int, j: int|
        0 <= i < j < statuses.len() ==> text_lt(
            (#[trigger] statuses[i]).symbol,
            (#[trigger] statuses[j]).symbol,
        )
}

proof fn lemma_with_status_members(statuses: Seq<StatusView>, status: StatusView)
    ensures
        forall|x: StatusView| #[trigger]
            with_status(statuses, status).contains(x) <==> statuses.contains(x) || x == status,
    decreases statuses.len(),
{
    let all = with_status(statuses, status);
    if statuses.len() == 0 || text_lt(status.symbol, statuses[0].symbol) {
        assert forall|x: StatusView| #[trigger]
            all.contains(x) <==> statuses.contains(x) || x == status by {
            if all.contains(x) {
                let i = choose|i: int| 0 <= i < all.len() && all[i] == x;
                if i > 0 {
                    assert(statuses[i - 1] == x);
                }
            }
            if statuses.contains(x) {
                let i = choose|i: int| 0 <= i < statuses.len() && statuses[i] == x;
                assert(all[i + 1] == x);
            }
            assert(all[0] == status);
        }
    } else {
        let rest = statuses.drop_first();
        let more = with_status(rest, status);
        lemma_with_status_members(rest, status);
        assert forall|x: StatusView| #[trigger]
            all.contains(x) <==> statuses.contains(x) || x == status by {
            if all.contains(x) {
                let i = choose|i: int| 0 <= i < all.len() && all[i] == x;
                if i > 0 {
                    assert(more[i - 1] == x);
                    assert(more.contains(x));
                    if rest.contains(x) {
                        let k = choose|k: int| 0 <= k < rest.len() && rest[k] == x;
                        assert(statuses[k + 1] == x);
                    }
                } else {
                    assert(statuses[0] == x);
                }
            }
            if statuses.contains(x) || x == status {
                if statuses.contains(x) {
                    let i = choose|i: int| 0 <= i < statuses.len() && statuses[i] == x;
                    if i > 0 {
                        assert(rest[i - 1] == x);
                        assert(more.contains(x));
                    } else {
                        assert(all[0] == x);
                    }
                } else {
                    assert(more.contains(x));
                }
                if more.contains(x) {
                    let k = choose|k: int| 0 <= k < more.len() && more[k] == x;
                    assert(all[k + 1] == x);
                }
            }
        }
    }
}

proof fn lemma_with_status_order(statuses: Seq<StatusView>, status: StatusView)
    requires
        in_symbol_order(statuses),
        forall|i: int| 0 <= i < statuses.len() ==> (#[trigger] statuses[i]).symbol != status.symbol,
    ensures
        in_symbol_order(with_status(statuses, status)),
    decreases statuses.len(),
{
    let all = with_status(statuses, status);
    if statuses.len() == 0 || text_lt(status.symbol, statuses[0].symbol) {
        assert forall|i: int, j: int| 0 <= i < j < all.len() implies text_lt(
            (#[trigger] all[i]).symbol,
            (#[trigger] all[j]).symbol,
        ) by {
            assert(all[j] == statuses[j - 1]);
            if i > 0 {
                assert(all[i] == statuses[i - 1]);
            } else if j > 1 {
                assert(text_lt(statuses[0].symbol, statuses[j - 1].symbol));
                lemma_text_lt_transitive(
                    status.symbol,
                    statuses[0].symbol,
                    statuses[j - 1].symbol,
                );
            }
        }
    } else {
        let rest = statuses.drop_first();
        let more = with_status(rest, status);
        assert forall|i: int| 0 <= i < rest.len() implies (#[trigger] rest[i]).symbol
            != status.symbol by {
            assert(rest[i] == statuses[i + 1]);
        }
        assert(in_symbol_order(rest)) by {
            assert forall|i: int, j: int| 0 <= i < j < rest.len() implies text_lt(
                (#[trigger] rest[i]).symbol,
                (#[trigger] rest[j]).symbol,
            ) by {
                assert(rest[i] == statuses[i + 1] && rest[j] == statuses[j + 1]);
            }
        }
        lemma_with_status_order(rest, status);
        lemma_with_status_members(rest, status);
        lemma_text_lt_total(status.symbol, statuses[0].symbol);
        assert forall|i: int, j: int| 0 <= i < j < all.len() implies text_lt(
            (#[trigger] all[i]).symbol,
            (#[trigger] all[j]).symbol,
        ) by {
            assert(all[j] == more[j - 1]);
            if i > 0 {
                assert(all[i] == more[i - 1]);
            } else {
                assert(more.contains(more[j - 1]));
                if rest.contains(more[j - 1]) {
                    let k = choose|k: int| 0 <= k < rest.len() && rest[k] == more[j - 1];
                    assert(statuses[k + 1] == more[j - 1]);
                }
            }
        }
    }
}

proof fn lemma_by_symbol(statuses: Seq<StatusView>)
    ensures
        forall|x: StatusView| #[trigger]
            by_symbol(statuses).contains(x) <==> statuses.contains(x),
        has_distinct_symbols(statuses) ==> in_symbol_order(by_symbol(statuses)),
    decreases statuses.len(),
{
    if statuses.len() > 0 {
        let front = statuses.drop_last();
        let last = statuses.last();
        let sorted = by_symbol(front);
        lemma_by_symbol(front);
        lemma_with_status_members(sorted, last);
        assert forall|x: StatusView| #[trigger]
            by_symbol(statuses).contains(x) <==> statuses.contains(x) by {
            if front.contains(x) {
                let k = choose|k: int| 0 <= k < front.len() && front[k] == x;
                assert(statuses[k] == x);
            }
            if statuses.contains(x) {
                let k = choose|k: int| 0 <= k < statuses.len() && statuses[k] == x;
                if k < front.len() {
                    assert(front[k] == x);
                }
            }
            assert(statuses[statuses.len() - 1] == last);
        }
        if has_distinct_symbols(statuses) {
            assert(has_distinct_symbols(front)) by {
                assert forall|i: int, j: int| 0 <= i < j < front.len() implies (
                #[trigger] front[i]).symbol != (#[trigger] front[j]).symbol by {
                    assert(front[i] == statuses[i] && front[j] == statuses[j]);
                }
            }
            assert forall|i: int| 0 <= i < sorted.len() implies (#[trigger] sorted[i]).symbol
                != last.symbol by {
                assert(sorted.contains(sorted[i]));
                assert(front.contains(sorted[i]));
                let k = choose|k: int| 0 <= k < front.len() && front[k] == sorted[i];
                assert(statuses[k] == sorted[i] && statuses[statuses.len() - 1] == last);
            }
            lemma_with_status_order(sorted, last);
        }
    }
}

proof fn lemma_statuses_determine_order(a: Seq<StatusView>, b: Seq<StatusView>)
    requires
        in_symbol_order(a),
        in_symbol_order(b),
        forall|x: StatusView| #[trigger] a.contains(x) <==> b.contains(x),
    ensures
        a == b,
{
    let a_symbols = Seq::new(a.len(), |i: int| a[i].symbol);
    let b_symbols = Seq::new(b.len(), |i: int| b[i].symbol);
    assert forall|n: Seq<char>| #[trigger]
        a_symbols.contains(n) <==> b_symbols.contains(n) by {
        if a_symbols.contains(n) {
            let i = choose|i: int| 0 <= i < a_symbols.len() && a_symbols[i] == n;
            assert(a.contains(a[i]));
            let k = choose|k: int| 0 <= k < b.len() && b[k] == a[i];
            assert(b_symbols[k] == n);
        }
        if b_symbols.contains(n) {
            let i = choose|i: int| 0 <= i < b_symbols.len() && b_symbols[i] == n;
            assert(b.contains(b[i]));
            assert(a.contains(b[i]));
            let k = choose|k: int| 0 <= k < a.len() && a[k] == b[i];
            assert(a_symbols[k] == n);
        }
    }
    assert(in_name_order(a_symbols)) by {
        assert forall|i: int, j: int| 0 <= i < j < a_symbols.len() implies text_lt(
            #[trigger] a_symbols[i],
            #[trigger] a_symbols[j],
        ) by {
            assert(text_lt(a[i].symbol, a[j].symbol));
        }
    }
    assert(in_name_order(b_symbols)) by {
        assert forall|i: int, j: int| 0 <= i < j < b_symbols.len() implies text_lt(
            #[trigger] b_symbols[i],
            #[trigger] b_symbols[j],
        ) by {
            assert(text_lt(b[i].symbol, b[j].symbol));
        }
    }
    law_names_determine_order(a_symbols, b_symbols);
    assert(a.len() == a_symbols.len() && b.len() == b_symbols.len());
    assert forall|i: int| 0 <= i < a.len() implies a[i] == b[i] by {
        assert(a_symbols[i] == b_symbols[i]);
        assert(a.contains(a[i]));
        let k = choose|k: int| 0 <= k < b.len() && b[k] == a[i];
        if k < i {
            assert(text_lt(b[k].symbol, b[i].symbol));
            lemma_text_lt_irreflexive(a[i].symbol);
        } else if k > i {
            assert(text_lt(b[i].symbol, b[k].symbol));
            lemma_text_lt_irreflexive(a[i].symbol);
        }
    }
    assert(a =~= b);
}

/// Epochs are equal exactly where the settings are: the same statuses and the
/// same tag filters, whatever their order. A marker has one status.
pub proof fn law_equal_epochs_mean_equal_settings(
    a: ParseEpochView,
    b: ParseEpochView,
    first: TaskConfigView,
    second: TaskConfigView,
)
    requires
        is_parse_epoch_of(a, first),
        is_parse_epoch_of(b, second),
        has_distinct_symbols(first.statuses),
        has_distinct_symbols(second.statuses),
    ensures
        a == b <==> first.statuses.to_set() == second.statuses.to_set()
            && first.tag_filters.to_set() == second.tag_filters.to_set(),
{
    lemma_by_symbol(first.statuses);
    lemma_by_symbol(second.statuses);
    if a == b {
        assert forall|x: StatusView| first.statuses.to_set().contains(x)
            == second.statuses.to_set().contains(x) by {
            assert(a.statuses.contains(x) <==> first.statuses.contains(x));
            assert(b.statuses.contains(x) <==> second.statuses.contains(x));
        }
        assert(first.statuses.to_set() =~= second.statuses.to_set());
        assert forall|tag: Seq<char>| first.tag_filters.to_set().contains(tag)
            == second.tag_filters.to_set().contains(tag) by {
            assert(a.tag_filters.contains(tag) <==> first.tag_filters.contains(tag));
            assert(b.tag_filters.contains(tag) <==> second.tag_filters.contains(tag));
        }
        assert(first.tag_filters.to_set() =~= second.tag_filters.to_set());
    }
    if first.statuses.to_set() == second.statuses.to_set() && first.tag_filters.to_set()
        == second.tag_filters.to_set() {
        assert forall|x: StatusView| #[trigger]
            a.statuses.contains(x) <==> b.statuses.contains(x) by {
            assert(first.statuses.to_set().contains(x) <==> second.statuses.to_set().contains(x));
        }
        lemma_statuses_determine_order(a.statuses, b.statuses);
        assert forall|tag: Seq<char>| #[trigger]
            a.tag_filters.contains(tag) <==> b.tag_filters.contains(tag) by {
            assert(first.tag_filters.to_set().contains(tag)
                <==> second.tag_filters.to_set().contains(tag));
        }
        law_names_determine_order(a.tag_filters, b.tag_filters);
    }
}

/// The statuses with this marker, in order.
pub open spec fn with_symbol(statuses: Seq<StatusView>, symbol: Seq<char>) -> Seq<StatusView> {
    statuses.filter(|status: StatusView| status.symbol == symbol)
}

/// No marker comes before one that stands earlier.
spec fn by_rising_symbol(statuses: Seq<StatusView>) -> bool {
    forall|i: int, j: int|
        0 <= i < j < statuses.len() ==> !text_lt(
            (#[trigger] statuses[j]).symbol,
            (#[trigger] statuses[i]).symbol,
        )
}

proof fn lemma_with_symbol_cons(first: StatusView, rest: Seq<StatusView>, symbol: Seq<char>)
    ensures
        with_symbol(seq![first] + rest, symbol) == (if first.symbol == symbol {
            seq![first] + with_symbol(rest, symbol)
        } else {
            with_symbol(rest, symbol)
        }),
{
    let pred = |status: StatusView| status.symbol == symbol;
    Seq::filter_distributes_over_add(seq![first], rest, pred);
    reveal(Seq::filter);
    let one = seq![first];
    assert(one.drop_last() =~= Seq::empty());
    assert(one.drop_last().filter(pred) =~= Seq::empty());
    if first.symbol == symbol {
        assert(one.filter(pred) =~= one);
    } else {
        assert(one.filter(pred) =~= Seq::empty());
        assert(Seq::<StatusView>::empty() + rest.filter(pred) =~= rest.filter(pred));
    }
}

proof fn lemma_with_symbol_none(statuses: Seq<StatusView>, symbol: Seq<char>)
    requires
        forall|i: int| 0 <= i < statuses.len() ==> (#[trigger] statuses[i]).symbol != symbol,
    ensures
        with_symbol(statuses, symbol).len() == 0,
    decreases statuses.len(),
{
    if statuses.len() == 0 {
        reveal(Seq::filter);
    } else {
        let rest = statuses.drop_first();
        assert forall|i: int| 0 <= i < rest.len() implies (#[trigger] rest[i]).symbol
            != symbol by {
            assert(rest[i] == statuses[i + 1]);
        }
        lemma_with_symbol_none(rest, symbol);
        assert(statuses =~= seq![statuses[0]] + rest);
        lemma_with_symbol_cons(statuses[0], rest, symbol);
    }
}

proof fn lemma_rising_rest(statuses: Seq<StatusView>)
    requires
        by_rising_symbol(statuses),
        statuses.len() > 0,
    ensures
        by_rising_symbol(statuses.drop_first()),
{
    let rest = statuses.drop_first();
    assert forall|i: int, j: int| 0 <= i < j < rest.len() implies !text_lt(
        (#[trigger] rest[j]).symbol,
        (#[trigger] rest[i]).symbol,
    ) by {
        assert(rest[i] == statuses[i + 1] && rest[j] == statuses[j + 1]);
    }
}

/// All of a rising list comes after what comes before its first.
proof fn lemma_rising_after(statuses: Seq<StatusView>, symbol: Seq<char>)
    requires
        by_rising_symbol(statuses),
        statuses.len() > 0 ==> text_lt(symbol, statuses[0].symbol),
    ensures
        forall|i: int| 0 <= i < statuses.len() ==> text_lt(symbol, (#[trigger] statuses[i]).symbol),
        forall|i: int| 0 <= i < statuses.len() ==> (#[trigger] statuses[i]).symbol != symbol,
{
    lemma_text_lt_irreflexive(symbol);
    assert forall|i: int| 0 <= i < statuses.len() implies text_lt(
        symbol,
        (#[trigger] statuses[i]).symbol,
    ) by {
        if i > 0 {
            let first = statuses[0].symbol;
            lemma_text_lt_total(first, statuses[i].symbol);
            if text_lt(first, statuses[i].symbol) {
                lemma_text_lt_transitive(symbol, first, statuses[i].symbol);
            }
        }
    }
}

proof fn lemma_with_status_rising(statuses: Seq<StatusView>, status: StatusView)
    requires
        by_rising_symbol(statuses),
    ensures
        by_rising_symbol(with_status(statuses, status)),
        forall|symbol: Seq<char>| #[trigger]
            with_symbol(with_status(statuses, status), symbol) == (if status.symbol == symbol {
                with_symbol(statuses, symbol).push(status)
            } else {
                with_symbol(statuses, symbol)
            }),
    decreases statuses.len(),
{
    let all = with_status(statuses, status);
    if statuses.len() == 0 || text_lt(status.symbol, statuses[0].symbol) {
        lemma_rising_after(statuses, status.symbol);
        assert forall|i: int, j: int| 0 <= i < j < all.len() implies !text_lt(
            (#[trigger] all[j]).symbol,
            (#[trigger] all[i]).symbol,
        ) by {
            assert(all[j] == statuses[j - 1]);
            if i > 0 {
                assert(all[i] == statuses[i - 1]);
            } else if text_lt(all[j].symbol, status.symbol) {
                lemma_text_lt_transitive(all[j].symbol, status.symbol, all[j].symbol);
                lemma_text_lt_irreflexive(all[j].symbol);
            }
        }
        assert forall|symbol: Seq<char>| #[trigger] with_symbol(all, symbol) == (if status.symbol
            == symbol {
            with_symbol(statuses, symbol).push(status)
        } else {
            with_symbol(statuses, symbol)
        }) by {
            lemma_with_symbol_cons(status, statuses, symbol);
            if status.symbol == symbol {
                lemma_with_symbol_none(statuses, symbol);
                assert(with_symbol(all, symbol) =~= with_symbol(statuses, symbol).push(status));
            }
        }
    } else {
        let first = statuses[0];
        let rest = statuses.drop_first();
        let more = with_status(rest, status);
        lemma_rising_rest(statuses);
        lemma_with_status_rising(rest, status);
        lemma_with_status_members(rest, status);
        assert forall|i: int, j: int| 0 <= i < j < all.len() implies !text_lt(
            (#[trigger] all[j]).symbol,
            (#[trigger] all[i]).symbol,
        ) by {
            assert(all[j] == more[j - 1]);
            if i > 0 {
                assert(all[i] == more[i - 1]);
            } else {
                assert(more.contains(more[j - 1]));
                if rest.contains(more[j - 1]) {
                    let k = choose|k: int| 0 <= k < rest.len() && rest[k] == more[j - 1];
                    assert(statuses[k + 1] == more[j - 1]);
                }
            }
        }
        assert(statuses =~= seq![first] + rest);
        assert forall|symbol: Seq<char>| #[trigger] with_symbol(all, symbol) == (if status.symbol
            == symbol {
            with_symbol(statuses, symbol).push(status)
        } else {
            with_symbol(statuses, symbol)
        }) by {
            lemma_with_symbol_cons(first, rest, symbol);
            lemma_with_symbol_cons(first, more, symbol);
            assert(with_symbol(more, symbol) == (if status.symbol == symbol {
                with_symbol(rest, symbol).push(status)
            } else {
                with_symbol(rest, symbol)
            }));
            assert(seq![first] + with_symbol(rest, symbol).push(status) =~= (seq![first]
                + with_symbol(rest, symbol)).push(status));
        }
    }
}

proof fn lemma_by_symbol_is_stable(statuses: Seq<StatusView>)
    ensures
        by_rising_symbol(by_symbol(statuses)),
        forall|symbol: Seq<char>| #[trigger]
            with_symbol(by_symbol(statuses), symbol) == with_symbol(statuses, symbol),
    decreases statuses.len(),
{
    reveal(Seq::filter);
    if statuses.len() == 0 {
        assert(by_symbol(statuses) =~= statuses);
    } else {
        let front = statuses.drop_last();
        lemma_by_symbol_is_stable(front);
        lemma_with_status_rising(by_symbol(front), statuses.last());
        assert forall|symbol: Seq<char>| #[trigger]
            with_symbol(by_symbol(statuses), symbol) == with_symbol(statuses, symbol) by {
            assert(with_symbol(by_symbol(front), symbol) == with_symbol(front, symbol));
        }
    }
}

proof fn lemma_rising_determined(a: Seq<StatusView>, b: Seq<StatusView>)
    requires
        by_rising_symbol(a),
        by_rising_symbol(b),
        forall|symbol: Seq<char>| #[trigger] with_symbol(a, symbol) == with_symbol(b, symbol),
    ensures
        a == b,
    decreases a.len() + b.len(),
{
    if a.len() == 0 && b.len() == 0 {
        assert(a =~= b);
    } else if a.len() == 0 || (b.len() > 0 && text_lt(b[0].symbol, a[0].symbol)) {
        lemma_rising_after(a, b[0].symbol);
        lemma_with_symbol_none(a, b[0].symbol);
        assert(b =~= seq![b[0]] + b.drop_first());
        lemma_with_symbol_cons(b[0], b.drop_first(), b[0].symbol);
        assert(with_symbol(a, b[0].symbol) == with_symbol(b, b[0].symbol));
    } else if b.len() == 0 || text_lt(a[0].symbol, b[0].symbol) {
        lemma_rising_after(b, a[0].symbol);
        lemma_with_symbol_none(b, a[0].symbol);
        assert(a =~= seq![a[0]] + a.drop_first());
        lemma_with_symbol_cons(a[0], a.drop_first(), a[0].symbol);
        assert(with_symbol(a, a[0].symbol) == with_symbol(b, a[0].symbol));
    } else {
        lemma_text_lt_total(a[0].symbol, b[0].symbol);
        let x = a.drop_first();
        let y = b.drop_first();
        assert(a =~= seq![a[0]] + x);
        assert(b =~= seq![b[0]] + y);
        lemma_with_symbol_cons(a[0], x, a[0].symbol);
        lemma_with_symbol_cons(b[0], y, a[0].symbol);
        assert(with_symbol(a, a[0].symbol) == with_symbol(b, a[0].symbol));
        assert(with_symbol(a, a[0].symbol)[0] == a[0]);
        assert(with_symbol(b, a[0].symbol)[0] == b[0]);
        lemma_rising_rest(a);
        lemma_rising_rest(b);
        assert forall|symbol: Seq<char>| #[trigger]
            with_symbol(x, symbol) == with_symbol(y, symbol) by {
            lemma_with_symbol_cons(a[0], x, symbol);
            lemma_with_symbol_cons(b[0], y, symbol);
            assert(with_symbol(a, symbol) == with_symbol(b, symbol));
            if a[0].symbol == symbol {
                assert(with_symbol(x, symbol) =~= with_symbol(a, symbol).drop_first());
                assert(with_symbol(y, symbol) =~= with_symbol(b, symbol).drop_first());
            }
        }
        lemma_rising_determined(x, y);
    }
}

/// Statuses are put in the same order exactly where each marker has the same
/// statuses in the same order, wherever they stand among the others.
pub proof fn law_order_by_symbol_is_stable(first: Seq<StatusView>, second: Seq<StatusView>)
    ensures
        by_symbol(first) == by_symbol(second) <==> forall|symbol: Seq<char>| #[trigger]
            with_symbol(first, symbol) == with_symbol(second, symbol),
{
    lemma_by_symbol_is_stable(first);
    lemma_by_symbol_is_stable(second);
    if by_symbol(first) == by_symbol(second) {
        assert forall|symbol: Seq<char>| #[trigger]
            with_symbol(first, symbol) == with_symbol(second, symbol) by {
            assert(with_symbol(by_symbol(first), symbol) == with_symbol(first, symbol));
            assert(with_symbol(by_symbol(second), symbol) == with_symbol(second, symbol));
        }
    }
    if forall|symbol: Seq<char>| #[trigger]
        with_symbol(first, symbol) == with_symbol(second, symbol) {
        assert forall|symbol: Seq<char>| #[trigger]
            with_symbol(by_symbol(first), symbol) == with_symbol(by_symbol(second), symbol) by {
            assert(with_symbol(first, symbol) == with_symbol(second, symbol));
        }
        lemma_rising_determined(by_symbol(first), by_symbol(second));
    }
}

/// Of any settings, epochs are equal exactly where the statuses are the same
/// once they are put in the order of their markers, and the tag filters are the
/// same, whatever their order and repetition.
pub proof fn law_equal_epochs_mean_equal_order(
    a: ParseEpochView,
    b: ParseEpochView,
    first: TaskConfigView,
    second: TaskConfigView,
)
    requires
        is_parse_epoch_of(a, first),
        is_parse_epoch_of(b, second),
    ensures
        a == b <==> by_symbol(first.statuses) == by_symbol(second.statuses)
            && first.tag_filters.to_set() == second.tag_filters.to_set(),
{
    if a == b {
        law_equal_epochs_have_the_same_settings(a, first, second);
    }
    if first.tag_filters.to_set() == second.tag_filters.to_set() {
        assert forall|tag: Seq<char>| #[trigger]
            a.tag_filters.contains(tag) <==> b.tag_filters.contains(tag) by {
            assert(first.tag_filters.to_set().contains(tag)
                <==> second.tag_filters.to_set().contains(tag));
        }
        law_names_determine_order(a.tag_filters, b.tag_filters);
    }
}

/// Whatever the markers are, equal epochs come from the same statuses and the
/// same tag filters.
pub proof fn law_equal_epochs_have_the_same_settings(
    epoch: ParseEpochView,
    first: TaskConfigView,
    second: TaskConfigView,
)
    requires
        is_parse_epoch_of(epoch, first),
        is_parse_epoch_of(epoch, second),
    ensures
        first.statuses.to_set() == second.statuses.to_set(),
        first.statuses.len() == second.statuses.len(),
        first.tag_filters.to_set() == second.tag_filters.to_set(),
{
    lemma_by_symbol(first.statuses);
    lemma_by_symbol(second.statuses);
    lemma_by_symbol_len(first.statuses);
    lemma_by_symbol_len(second.statuses);
    assert forall|x: StatusView| first.statuses.to_set().contains(x)
        == second.statuses.to_set().contains(x) by {
        assert(epoch.statuses.contains(x) <==> first.statuses.contains(x));
        assert(epoch.statuses.contains(x) <==> second.statuses.contains(x));
    }
    assert(first.statuses.to_set() =~= second.statuses.to_set());
    assert forall|tag: Seq<char>| first.tag_filters.to_set().contains(tag)
        == second.tag_filters.to_set().contains(tag) by {
        assert(epoch.tag_filters.contains(tag) <==> first.tag_filters.contains(tag));
        assert(epoch.tag_filters.contains(tag) <==> second.tag_filters.contains(tag));
    }
    assert(first.tag_filters.to_set() =~= second.tag_filters.to_set());
}

/// What is written is read back: a row that holds the markers and tag filters of
/// one epoch holds those of no other.
pub proof fn law_parse_rows_read_back(row: Seq<u8>, written: ParseEpochView, read: ParseEpochView)
    requires
        row_marks(row, usize::BITS) == Ok::<
            (Seq<(Seq<char>, bool)>, Seq<Seq<char>>),
            Seq<char>,
        >((status_marks(written.statuses), written.tag_filters)),
        row_marks(row, usize::BITS) == Ok::<
            (Seq<(Seq<char>, bool)>, Seq<Seq<char>>),
            Seq<char>,
        >((status_marks(read.statuses), read.tag_filters)),
    ensures
        written == read,
{
    let a = status_marks(written.statuses);
    let b = status_marks(read.statuses);
    assert(a == b);
    assert(a.len() == written.statuses.len() && b.len() == read.statuses.len());
    assert forall|i: int| 0 <= i < written.statuses.len() implies written.statuses[i]
        == read.statuses[i] by {
        assert(a[i] == b[i]);
    }
    assert(written.statuses =~= read.statuses);
}

} // verus!
