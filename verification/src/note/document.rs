//! A note: the metadata of one Markdown file.

use vstd::prelude::*;
use vstd::string::*;

use super::events::markdown_events;
use super::inline::tag_texts;
use super::metadata::{
    field_views, fields_of_frontmatter, FieldView, Frontmatter, MetadataField, RawFrontmatter,
};
use super::parser::{outline_of, outlink_views, parse_outline, Outline, OutlineView, TextStyle};
use super::structure::{
    collect_tasks_recursive, item_views, lemma_list_views, list_views, task_views, tasks_of_items,
    tasks_of_lists, CodeRegion, List, ListItem, ListView, Outlink, OutlinkView, Tag,
};
use crate::path::{law_text_names_path, path_parts, FilePath};

verus! {

/// Contents of a [`Note`].
pub struct NoteView {
    /// Path relative to the project root.
    pub path: Seq<Seq<char>>,
    /// How the path is written.
    pub path_text: Seq<char>,
    /// Fields of the frontmatter block, if there is one.
    pub frontmatter: Option<Seq<FieldView>>,
    /// Lists that are not nested in others.
    pub lists: Seq<ListView>,
    /// Links in document order.
    pub outlinks: Seq<OutlinkView>,
    /// Code in document order.
    pub code_regions: Seq<CodeRegion>,
    /// Inline fields in document order.
    pub inline_fields: Seq<FieldView>,
    /// Tags in document order.
    pub tags: Seq<Seq<char>>,
}

impl NoteView {
    /// All fields: those of the frontmatter before those of the body.
    pub open spec fn fields(self) -> Seq<FieldView> {
        match self.frontmatter {
            Some(fields) => fields + self.inline_fields,
            None => self.inline_fields,
        }
    }
}

/// The metadata of one Markdown file.
#[derive(Debug)]
pub struct Note {
    path: FilePath,
    frontmatter: Option<Frontmatter>,
    lists: Vec<List>,
    outlinks: Vec<Outlink>,
    code_regions: Vec<CodeRegion>,
    inline_fields: Vec<MetadataField>,
    tags: Vec<Tag>,
}

impl View for Note {
    type V = NoteView;

    closed spec fn view(&self) -> NoteView {
        NoteView {
            path: self.path@,
            path_text: self.path.spec_text(),
            frontmatter: match self.frontmatter {
                Some(frontmatter) => Some(frontmatter@),
                None => None,
            },
            lists: list_views(self.lists@),
            outlinks: outlink_views(self.outlinks@),
            code_regions: self.code_regions@,
            inline_fields: field_views(self.inline_fields@),
            tags: tag_texts(self.tags@),
        }
    }
}

/// The contents of each field found.
pub open spec fn field_ref_views(fields: Seq<&MetadataField>) -> Seq<FieldView> {
    Seq::new(fields.len(), |i: int| fields[i]@)
}

/// The note of an outline, at the path written as `text`.
pub open spec fn note_of_outline(text: Seq<char>, outline: OutlineView) -> NoteView {
    NoteView {
        path: path_parts(text),
        path_text: text,
        frontmatter: match outline.frontmatter {
            Some(raw) => Some(fields_of_frontmatter(raw)),
            None => None,
        },
        lists: outline.lists,
        outlinks: outline.outlinks,
        code_regions: outline.code_regions,
        inline_fields: Seq::empty(),
        tags: Seq::empty(),
    }
}

impl Note {
    /// A note without inline fields and tags.
    pub fn new(
        path: FilePath,
        frontmatter: Option<Frontmatter>,
        lists: Vec<List>,
        outlinks: Vec<Outlink>,
        code_regions: Vec<CodeRegion>,
    ) -> (note: Self)
        ensures
            note@ == (NoteView {
                path: path@,
                path_text: path.spec_text(),
                frontmatter: match frontmatter {
                    Some(block) => Some(block@),
                    None => None,
                },
                lists: list_views(lists@),
                outlinks: outlink_views(outlinks@),
                code_regions: code_regions@,
                inline_fields: Seq::empty(),
                tags: Seq::empty(),
            }),
    {
        let note = Note {
            path,
            frontmatter,
            lists,
            outlinks,
            code_regions,
            inline_fields: Vec::new(),
            tags: Vec::new(),
        };
        assert(note@.inline_fields =~= Seq::empty());
        assert(note@.tags =~= Seq::empty());
        note
    }

    /// The note of an outline. Its frontmatter block is parsed.
    pub fn from_outline(path: FilePath, outline: Outline) -> (note: Self)
        ensures
            note@ == note_of_outline(path.spec_text(), outline@),
    {
        proof {
            law_text_names_path(path);
        }
        let frontmatter = match &outline.frontmatter {
            Some(raw) => Some(Frontmatter::from(raw)),
            None => None,
        };
        Note::new(path, frontmatter, outline.lists, outline.outlinks, outline.code_regions)
    }

    /// This note with other inline fields.
    pub fn with_inline_fields(self, inline_fields: Vec<MetadataField>) -> (note: Self)
        ensures
            note@ == (NoteView { inline_fields: field_views(inline_fields@), ..self@ }),
    {
        let mut note = self;
        note.inline_fields = inline_fields;
        note
    }

    /// This note with other tags.
    pub fn with_tags(self, tags: Vec<Tag>) -> (note: Self)
        ensures
            note@ == (NoteView { tags: tag_texts(tags@), ..self@ }),
    {
        let mut note = self;
        note.tags = tags;
        note
    }

    /// Path relative to the project root.
    pub fn path(&self) -> (path: &FilePath)
        ensures
            path@ == self@.path,
            path.spec_text() == self@.path_text,
    {
        &self.path
    }

    /// The parsed frontmatter block, if there is one.
    pub fn frontmatter(&self) -> (frontmatter: Option<&Frontmatter>)
        ensures
            match frontmatter {
                Some(block) => self@.frontmatter == Some(block@),
                None => self@.frontmatter is None,
            },
    {
        match &self.frontmatter {
            Some(block) => Some(block),
            None => None,
        }
    }

    /// Lists that are not nested in others.
    pub fn lists(&self) -> (lists: &Vec<List>)
        ensures
            list_views(lists@) == self@.lists,
    {
        &self.lists
    }

    /// Links in document order.
    pub fn outlinks(&self) -> (outlinks: &Vec<Outlink>)
        ensures
            outlink_views(outlinks@) == self@.outlinks,
    {
        &self.outlinks
    }

    /// Code in document order.
    pub fn code_regions(&self) -> (regions: &Vec<CodeRegion>)
        ensures
            regions@ == self@.code_regions,
    {
        &self.code_regions
    }

    /// Inline fields in document order.
    pub fn inline_fields(&self) -> (fields: &Vec<MetadataField>)
        ensures
            field_views(fields@) == self@.inline_fields,
    {
        &self.inline_fields
    }

    /// Tags in document order.
    pub fn tags(&self) -> (tags: &Vec<Tag>)
        ensures
            tag_texts(tags@) == self@.tags,
    {
        &self.tags
    }

    /// All fields: those of the frontmatter before those of the body.
    pub fn fields(&self) -> (fields: Vec<&MetadataField>)
        ensures
            field_ref_views(fields@) == self@.fields(),
    {
        let mut fields: Vec<&MetadataField> = Vec::new();
        assert(field_ref_views(fields@) =~= Seq::empty());
        if let Some(block) = &self.frontmatter {
            push_fields(&mut fields, block.fields());
            assert(Seq::empty() + block@ =~= block@);
        }
        push_fields(&mut fields, &self.inline_fields);
        assert(Seq::empty() + self@.inline_fields =~= self@.inline_fields);
        fields
    }

    /// All tasks, those of nested lists included, in document order.
    pub fn tasks(&self) -> (tasks: Vec<&ListItem>)
        ensures
            task_views(tasks@) == tasks_of_lists(self@.lists),
    {
        let mut tasks: Vec<&ListItem> = Vec::new();
        let ghost views = list_views(self.lists@);
        proof {
            lemma_list_views(self.lists@);
            assert(task_views(tasks@) =~= tasks_of_lists(views.take(0)));
        }
        let mut i: usize = 0;
        while i < self.lists.len()
            invariant
                i <= self.lists@.len(),
                views == list_views(self.lists@),
                views.len() == self.lists@.len(),
                forall|k: int|
                    0 <= k < views.len() ==> (#[trigger] views[k]) == self.lists@[k].contents(),
                task_views(tasks@) == tasks_of_lists(views.take(i as int)),
            decreases self.lists@.len() - i,
        {
            collect_tasks_recursive(&self.lists[i], &mut tasks);
            proof {
                let next = views.take(i + 1);
                assert(next.drop_last() =~= views.take(i as int));
                assert(next.last() == views[i as int]);
            }
            i = i + 1;
        }
        assert(views.take(i as int) =~= views);
        tasks
    }
}

/// Appends references to `more` to `fields`.
fn push_fields<'a>(fields: &mut Vec<&'a MetadataField>, more: &'a Vec<MetadataField>)
    ensures
        field_ref_views(final(fields)@) == field_ref_views(old(fields)@) + field_views(more@),
{
    let ghost before = field_ref_views(fields@);
    let mut i: usize = 0;
    assert(before + field_views(more@).take(0) =~= before);
    while i < more.len()
        invariant
            i <= more@.len(),
            field_ref_views(fields@) == before + field_views(more@).take(i as int),
        decreases more@.len() - i,
    {
        let ghost upto = fields@;
        fields.push(&more[i]);
        proof {
            let views = field_views(more@);
            assert(field_ref_views(fields@) =~= field_ref_views(upto).push(more@[i as int]@));
            assert(views.take(i + 1) =~= views.take(i as int).push(views[i as int]));
        }
        i = i + 1;
    }
    assert(field_views(more@).take(i as int) =~= field_views(more@));
}

/// Parses a Markdown source into a note at `path`.
pub fn parse_markdown(path: FilePath, source: &str) -> (note: Note)
    ensures
        note@ == note_of_outline(
            path.spec_text(),
            outline_of(markdown_events(source@, true, true, true), TextStyle::Verbatim),
        ),
{
    Note::from_outline(path, parse_outline(source, TextStyle::Verbatim))
}

} // verus!
